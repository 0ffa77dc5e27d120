use cirrus::mlir::Context;
use cirrus::mlir::DialectHandle;
use cirrus::mlir::Module;
use cirrus::mlir::Type;
use cirrus::Wrapper;

#[test]
fn parse_and_walk_nested_module() {
    let mut ctx = Context::new();
    ctx.get_mut().load_dialect(&DialectHandle::firrtl());
    let text = "firrtl.circuit [name = top] { firrtl.module [name = m] { } }";
    let module = Module::parse(ctx.get_mut(), text).unwrap();
    let c = ctx.get();
    let body = module.get().body(c).unwrap();
    let circuit = body.first_op(c).unwrap();
    let circuit_name = circuit.name(c).unwrap().to_string_ref(c).unwrap();
    assert_eq!(circuit_name.as_str().unwrap(), "firrtl.circuit");
    let region = circuit.first_region(c).unwrap();
    let blk = region.first_block(c).unwrap();
    let sub = blk.first_op(c).unwrap();
    let sub_name = sub.name(c).unwrap().to_string_ref(c).unwrap();
    assert_eq!(sub_name.as_str().unwrap(), "firrtl.module");
    assert!(sub.next(c).is_none());
}

#[test]
fn empty_module_body_has_no_first_op() {
    let mut ctx = Context::new();
    let module = Module::parse(ctx.get_mut(), "").unwrap();
    let c = ctx.get();
    let body = module.get().body(c).unwrap();
    assert!(body.first_op(c).is_none());
}

#[test]
fn sibling_walk_reaches_absence() {
    let mut ctx = Context::new();
    let module = Module::parse(ctx.get_mut(), "alpha beta gamma").unwrap();
    let c = ctx.get();
    let body = module.get().body(c).unwrap();
    let mut cur = body.first_op(c);
    let mut steps = 0;
    while let Some(op) = cur {
        steps += 1;
        assert!(steps <= 3);
        cur = op.next(c);
    }
    assert_eq!(steps, 3);
}

#[test]
fn sibling_regions_end_in_absence() {
    let mut ctx = Context::new();
    let module = Module::parse(ctx.get_mut(), "holder { a } { b }").unwrap();
    let c = ctx.get();
    let holder = module.get().body(c).unwrap().first_op(c).unwrap();
    let r1 = holder.first_region(c).unwrap();
    let r2 = r1.next(c).unwrap();
    assert!(r2.next(c).is_none());
    let a = r1.first_block(c).unwrap().first_op(c).unwrap();
    assert_eq!(
        a.name(c).unwrap().to_string_ref(c).unwrap().as_str().unwrap(),
        "a"
    );
    let b = r2.first_block(c).unwrap().first_op(c).unwrap();
    assert_eq!(
        b.name(c).unwrap().to_string_ref(c).unwrap().as_str().unwrap(),
        "b"
    );
}

#[test]
fn operand_lookup_is_bounds_checked() {
    let mut ctx = Context::new();
    let text = "%a = one  %b = two  use(%a, %b)";
    let module = Module::parse(ctx.get_mut(), text).unwrap();
    let c = ctx.get();
    let first = module.get().body(c).unwrap().first_op(c).unwrap();
    let second = first.next(c).unwrap();
    let user = second.next(c).unwrap();
    assert_eq!(user.num_operands(c), 2);
    assert!(user.operand_at(c, 0).is_some());
    assert!(user.operand_at(c, 1).is_some());
    assert!(user.operand_at(c, 2).is_none());
    assert!(user.operand_at(c, 100000).is_none());
    let from_use = user.operand_at(c, 0).unwrap();
    let from_def = first.result_at(c, 0).unwrap();
    assert_eq!(from_use.raw().ptr, from_def.raw().ptr);
}

#[test]
fn results_are_absent_when_none_and_complete_when_present() {
    let mut ctx = Context::new();
    let text = "%x, %y = pair  sink(%y)";
    let module = Module::parse(ctx.get_mut(), text).unwrap();
    let c = ctx.get();
    let pair = module.get().body(c).unwrap().first_op(c).unwrap();
    assert_eq!(pair.num_results(c), 2);
    let results = pair.results(c).unwrap();
    assert_eq!(results.len(), 2);
    assert!(pair.result_at(c, 2).is_none());
    let sink = pair.next(c).unwrap();
    assert!(sink.results(c).is_none());
    assert!(sink.operands(c).is_some());
    assert_eq!(sink.operands(c).unwrap().len(), 1);
    assert!(pair.operands(c).is_none());
}

#[test]
fn attribute_lookup_by_index_and_name() {
    let mut ctx = Context::new();
    let text = "node [kind = add, width = wide]";
    let module = Module::parse(ctx.get_mut(), text).unwrap();
    let c = ctx.get();
    let node = module.get().body(c).unwrap().first_op(c).unwrap();
    assert_eq!(node.num_attributes(c), 2);
    let first = node.attribute_at(c, 0).unwrap();
    assert_eq!(
        first.name.to_string_ref(c).unwrap().as_str().unwrap(),
        "kind"
    );
    assert!(node.attribute_at(c, 2).is_none());
    assert!(node.attribute(c, "width").is_some());
    assert!(node.attribute(c, "kind").is_some());
    assert!(node.attribute(c, "missing").is_none());
}

#[test]
fn module_root_op_is_reachable() {
    let mut ctx = Context::new();
    let module = Module::parse(ctx.get_mut(), "leaf").unwrap();
    let c = ctx.get();
    let root = module.get().op(c).unwrap();
    assert_eq!(
        root.name(c).unwrap().to_string_ref(c).unwrap().as_str().unwrap(),
        "builtin.module"
    );
    let body = module.get().body(c).unwrap();
    let via_root = root.first_region(c).unwrap().first_block(c).unwrap();
    assert_eq!(body.raw().ptr, via_root.raw().ptr);
}

#[test]
fn parse_failure_is_absence() {
    let mut ctx = Context::new();
    assert!(Module::parse(ctx.get_mut(), "{ a }").is_none());
    assert!(Module::parse(ctx.get_mut(), "a }").is_none());
    assert!(Module::parse(ctx.get_mut(), "use(%missing)").is_none());
    assert!(Module::parse(ctx.get_mut(), "broken [k = ").is_none());
    assert!(Module::parse(ctx.get_mut(), "fine").is_some());
}

#[test]
fn type_parse_interns_by_name() {
    let mut ctx = Context::new();
    let t1 = Type::parse(ctx.get_mut(), "i32").unwrap();
    let t2 = Type::parse(ctx.get_mut(), "i32").unwrap();
    assert_eq!(t1.raw().ptr, t2.raw().ptr);
    let t3 = Type::parse(ctx.get_mut(), "i64").unwrap();
    assert_ne!(t1.raw().ptr, t3.raw().ptr);
    assert!(Type::parse(ctx.get_mut(), "").is_none());
}

#[test]
fn values_carry_a_type() {
    let mut ctx = Context::new();
    let module = Module::parse(ctx.get_mut(), "%v = source  drain(%v)").unwrap();
    let c = ctx.get();
    let source = module.get().body(c).unwrap().first_op(c).unwrap();
    let drain = source.next(c).unwrap();
    let t1 = source.result_at(c, 0).unwrap().get_type(c).unwrap();
    let t2 = drain.operand_at(c, 0).unwrap().get_type(c).unwrap();
    assert_eq!(t1.raw().ptr, t2.raw().ptr);
}

#[test]
fn foreign_handle_reads_as_absence() {
    let mut ctx = Context::new();
    let module = Module::parse(ctx.get_mut(), "solo").unwrap();
    let op = {
        let c = ctx.get();
        module.get().body(c).unwrap().first_op(c).unwrap()
    };
    let other = Context::new();
    assert!(op.next(other.get()).is_none());
    assert!(op.name(other.get()).is_none());
    assert_eq!(op.num_operands(other.get()), 0);
    other.release();
}

#[test]
fn empty_lists_parse_as_empty() {
    let mut ctx = Context::new();
    let module = Module::parse(ctx.get_mut(), "f() []").unwrap();
    let c = ctx.get();
    let f = module.get().body(c).unwrap().first_op(c).unwrap();
    assert_eq!(f.num_operands(c), 0);
    assert_eq!(f.num_attributes(c), 0);
    assert!(f.operand_at(c, 0).is_none());
    assert!(f.attribute_at(c, 0).is_none());
}

#[test]
fn empty_region_holds_an_empty_block() {
    let mut ctx = Context::new();
    let module = Module::parse(ctx.get_mut(), "holder { }").unwrap();
    let c = ctx.get();
    let holder = module.get().body(c).unwrap().first_op(c).unwrap();
    let region = holder.first_region(c).unwrap();
    let blk = region.first_block(c).unwrap();
    assert!(blk.first_op(c).is_none());
    assert!(region.next(c).is_none());
}

#[test]
fn childless_op_has_no_region() {
    let mut ctx = Context::new();
    let module = Module::parse(ctx.get_mut(), "leafless").unwrap();
    let c = ctx.get();
    let op = module.get().body(c).unwrap().first_op(c).unwrap();
    assert!(op.first_region(c).is_none());
}

#[test]
fn dump_is_observational_only() {
    let mut ctx = Context::new();
    let module = Module::parse(ctx.get_mut(), "%r = make [tag = demo]").unwrap();
    let c = ctx.get();
    let op = module.get().body(c).unwrap().first_op(c).unwrap();
    op.dump(c);
    let na = op.attribute_at(c, 0).unwrap();
    na.dump(c);
    na.attribute.dump(c);
    let v = op.result_at(c, 0).unwrap();
    v.dump(c);
    v.get_type(c).unwrap().dump(c);
    assert!(op.next(c).is_none());
}
