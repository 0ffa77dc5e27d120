use cirrus::mlir::Block;
use cirrus::mlir::Context;
use cirrus::mlir::Module;
use cirrus::mlir::Operation;
use cirrus::mlir::RawAttribute;
use cirrus::mlir::RawBlock;
use cirrus::mlir::RawIdentifier;
use cirrus::mlir::RawNamedAttribute;
use cirrus::mlir::RawOperation;
use cirrus::mlir::RawRegion;
use cirrus::mlir::RawContext;
use cirrus::mlir::RawStringRef;
use cirrus::mlir::Region;
use cirrus::mlir::StringRef;
use cirrus::BindingType;
use cirrus::IntoOwned;
use cirrus::Wrapper;

#[test]
fn create_and_drop_context() {
    let ctx = Context::new();
    ctx.release();
}

#[test]
fn null_admission_returns_absence() {
    assert!(Operation::try_from_raw(RawOperation { ptr: 0 }).is_none());
    assert!(Region::try_from_raw(RawRegion { ptr: 0 }).is_none());
    assert!(Block::try_from_raw(RawBlock { ptr: 0 }).is_none());
    assert!(StringRef::try_from_raw(RawStringRef { data: None }).is_none());
    assert!(RawOperation { ptr: 0 }.is_null());
    assert!(!RawOperation { ptr: 1 }.is_null());
}

#[test]
fn non_null_admission_round_trips() {
    let op = Operation::try_from_raw(RawOperation { ptr: 7 }).unwrap();
    assert_eq!(op.raw().ptr, 7);
    assert_eq!(op.raw_ref().ptr, 7);
    let b = Block::try_from_raw(RawBlock { ptr: 3 }).unwrap();
    assert_eq!(b.raw().ptr, 3);
}

#[test]
fn named_attribute_is_null_when_either_part_is() {
    let half = RawNamedAttribute {
        name: RawIdentifier { ptr: 0 },
        attribute: RawAttribute { ptr: 2 },
    };
    assert!(half.is_null());
    let other_half = RawNamedAttribute {
        name: RawIdentifier { ptr: 2 },
        attribute: RawAttribute { ptr: 0 },
    };
    assert!(other_half.is_null());
    let whole = RawNamedAttribute {
        name: RawIdentifier { ptr: 1 },
        attribute: RawAttribute { ptr: 1 },
    };
    assert!(!whole.is_null());
}

#[test]
fn string_view_round_trip() {
    let s = "hello.world";
    let sr = StringRef::from_str(s);
    assert_eq!(sr.as_bytes(), s.as_bytes());
    assert_eq!(sr.as_str().unwrap(), s);
}

#[test]
fn empty_string_view_round_trip() {
    let s = "";
    let sr = StringRef::from_str(s);
    assert_eq!(sr.as_bytes().len(), 0);
    assert_eq!(sr.as_str().unwrap(), "");
}

#[test]
fn invalid_text_decoding_fails_recoverably() {
    let bytes: Vec<u8> = vec![0xff, 0xfe, 0x00];
    let sr = StringRef::try_from_raw(RawStringRef { data: Some(&bytes) }).unwrap();
    assert_eq!(sr.as_bytes(), &[0xff, 0xfe, 0x00]);
    assert!(sr.as_str().is_err());
}

#[test]
fn destroyed_context_reads_as_absence() {
    let mut c = Context::try_from_raw(RawContext { ptr: 5 }).unwrap();
    let module = Module::parse(&mut c, "alpha").unwrap();
    let op = module.get().body(&c).unwrap().first_op(&c).unwrap();
    let name = op.name(&c).unwrap();
    c.destroy();
    assert!(op.name(&c).is_none());
    assert!(name.to_string_ref(&c).is_none());
    assert!(module.get().body(&c).is_none());
}

#[test]
fn into_owned_and_release_module() {
    let mut ctx = Context::new();
    let m = Module::parse(ctx.get_mut(), "a").unwrap();
    m.release();
    ctx.release();
}
