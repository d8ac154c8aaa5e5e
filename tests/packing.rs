use context_packing::compact_temp_mapping::{self, LocalIndex};
use context_packing::initial_context::{Context, TempMapping, Type};
use context_packing::packed_context::{pack_context, unpack_context, ContextDelta, PackError};

fn busy_context() -> Context {
    let mut c = Context::default();
    c.stack_size = 4;
    c.sp_offset = 2;
    c.chain_depth = 1;
    c.self_type = Type::CString;
    c.local_types[1] = Type::Nil;
    c.local_types[7] = Type::TArray;
    c.temp_types[0] = Type::Fixnum;
    c.temp_mapping[0] = TempMapping::MapToLocal(5);
    c.temp_mapping[6] = TempMapping::MapToSelf;
    c
}

#[test]
fn chain_depth_and_stack_pack_in_order() {
    let mut c = Context::default();
    c.self_type = Type::Unknown;
    c.chain_depth = 2;
    c.stack_size = 3;
    c.sp_offset = -1;
    let packed = pack_context(&c).unwrap();
    assert_eq!(packed, vec![ContextDelta::ChainDepth(2), ContextDelta::SmallStack(3, -1)]);
}

#[test]
fn local_type_and_mapping_pack_in_order() {
    let mut c = Context::default();
    c.local_types[0] = Type::Fixnum;
    c.temp_mapping[3] = TempMapping::MapToSelf;
    let packed = pack_context(&c).unwrap();
    assert_eq!(
        packed,
        vec![
            ContextDelta::LocalType(0, Type::Fixnum),
            ContextDelta::TempMapping3(compact_temp_mapping::TempMapping::MapToSelf),
        ]
    );
}

#[test]
fn default_context_packs_to_nothing() {
    let packed = pack_context(&Context::default()).unwrap();
    assert!(packed.is_empty());
}

#[test]
fn every_field_packs_in_fixed_order() {
    let packed = pack_context(&busy_context()).unwrap();
    assert_eq!(
        packed,
        vec![
            ContextDelta::SelfType(Type::CString),
            ContextDelta::ChainDepth(1),
            ContextDelta::LocalType(1, Type::Nil),
            ContextDelta::LocalType(7, Type::TArray),
            ContextDelta::TempType(0, Type::Fixnum),
            ContextDelta::TempMapping0(compact_temp_mapping::TempMapping::MapToLocal(
                LocalIndex::Local5
            )),
            ContextDelta::TempMapping6(compact_temp_mapping::TempMapping::MapToSelf),
            ContextDelta::SmallStack(4, 2),
        ]
    );
}

#[test]
fn unpack_reverses_pack() {
    let c = busy_context();
    let packed = pack_context(&c).unwrap();
    assert_eq!(unpack_context(&packed), c);
    let d = Context::default();
    assert_eq!(unpack_context(&pack_context(&d).unwrap()), d);
}

#[test]
fn largest_small_stack_values_pack() {
    let mut c = Context::default();
    c.stack_size = 255;
    c.sp_offset = -128;
    let packed = pack_context(&c).unwrap();
    assert_eq!(packed, vec![ContextDelta::SmallStack(255, -128)]);
    assert_eq!(unpack_context(&packed), c);
    c.sp_offset = 127;
    assert_eq!(pack_context(&c).unwrap(), vec![ContextDelta::SmallStack(255, 127)]);
}

#[test]
fn large_stack_size_is_unsupported() {
    let mut c = Context::default();
    c.stack_size = 256;
    assert_eq!(pack_context(&c), Err(PackError::UnsupportedValue));
}

#[test]
fn large_sp_offset_is_unsupported() {
    let mut c = Context::default();
    c.sp_offset = -129;
    assert_eq!(pack_context(&c), Err(PackError::UnsupportedValue));
    c.sp_offset = 200;
    assert_eq!(pack_context(&c), Err(PackError::UnsupportedValue));
}

#[test]
fn compact_context_keeps_every_field() {
    let c = busy_context();
    let compact = compact_temp_mapping::Context::from(&c);
    assert_eq!(compact.stack_size, 4);
    assert_eq!(compact.sp_offset, 2);
    assert_eq!(compact.chain_depth, 1);
    assert_eq!(compact.self_type, Type::CString);
    assert_eq!(compact.local_types, c.local_types);
    assert_eq!(
        compact.temp_mapping[0],
        compact_temp_mapping::TempMapping::MapToLocal(LocalIndex::Local5)
    );
    assert_eq!(compact.temp_mapping[6], compact_temp_mapping::TempMapping::MapToSelf);
    assert_eq!(compact.temp_mapping[1], compact_temp_mapping::TempMapping::MapToStack);
}

#[test]
fn local_index_out_of_range_is_invalid() {
    let mut c = Context::default();
    c.temp_mapping[2] = TempMapping::MapToLocal(7);
    assert!(c.is_valid());
    c.temp_mapping[2] = TempMapping::MapToLocal(8);
    assert!(!c.is_valid());
}

#[test]
fn local_index_numbers() {
    assert_eq!(LocalIndex::from_index(6), LocalIndex::Local6);
    assert_eq!(LocalIndex::Local3.index(), 3);
}
