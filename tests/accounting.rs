use context_packing::compact_temp_mapping;
use context_packing::deduplicated::ContextStorage;
use context_packing::initial_context::{Context, ContextWithCount, Type};
use context_packing::hash_cons::ContextHash;
use context_packing::hash_cons_2::{ContextNode, ContextTree};
use context_packing::packed_context::PackedContext;
use context_packing::size_accounting::{store_dataset, total_size, StoreError};

fn entry(depth: u8, count: u64) -> ContextWithCount {
    let mut context = Context::default();
    context.chain_depth = depth;
    ContextWithCount { context, count }
}

#[test]
fn total_is_handles_times_counts_plus_storage() {
    let entries = vec![entry(1, 5), entry(2, 5)];
    assert_eq!(total_size(&entries, 8, 100), Some(180));
    assert_eq!(total_size(&entries, 8, 0), Some(80));
    assert_eq!(total_size(&Vec::new(), 8, 7), Some(7));
}

#[test]
fn total_grows_with_entries_and_counts() {
    let mut entries = vec![entry(1, 3)];
    let first = total_size(&entries, 40, 0).unwrap();
    entries.push(entry(2, 1));
    let second = total_size(&entries, 40, 0).unwrap();
    entries[0].count = 4;
    let third = total_size(&entries, 40, 0).unwrap();
    assert_eq!((first, second, third), (120, 160, 200));
}

#[test]
fn sharing_beats_copies_under_repetition() {
    let entries = vec![entry(3, 10_000)];
    let full = total_size(&entries, 40, 0).unwrap();
    let shared = total_size(&entries, 8, 500).unwrap();
    assert_eq!(full, 400_000);
    assert_eq!(shared, 80_500);
    assert!(shared < full);
}

#[test]
fn total_overflow_gives_none() {
    let entries = vec![entry(1, u64::MAX)];
    assert_eq!(total_size(&entries, 2, 0), None);
    assert_eq!(total_size(&entries, 0, 3), Some(3));
    assert_eq!(total_size(&Vec::new(), 0, usize::MAX), Some(usize::MAX));
}

#[test]
fn store_keeps_one_copy_per_value() {
    let mut store: ContextStorage<Context> = ContextStorage::new();
    let a = entry(1, 1).context;
    let mut b = a;
    b.self_type = Type::Nil;
    assert!(store.insert(a));
    assert!(!store.insert(a));
    assert!(store.insert(b));
    assert_eq!(store.len(), 2);
    assert!(store.contains(&b));
    assert_eq!(*store.get(0), a);
}

#[test]
fn store_of_compact_and_packed_values() {
    let c = entry(2, 1).context;
    let mut compact: ContextStorage<compact_temp_mapping::Context> = ContextStorage::default();
    compact.insert(compact_temp_mapping::Context::from(&c));
    compact.insert(compact_temp_mapping::Context::from(&c));
    assert_eq!(compact.len(), 1);
    let mut packed: ContextStorage<Vec<context_packing::packed_context::ContextDelta>> =
        ContextStorage::new();
    packed.insert(context_packing::packed_context::pack_context(&c).unwrap());
    packed.insert(vec![]);
    packed.insert(context_packing::packed_context::pack_context(&c).unwrap());
    assert_eq!(packed.len(), 2);
}

#[test]
fn dataset_fills_each_strategy() {
    let entries = vec![entry(1, 5), entry(2, 5), entry(1, 2)];
    let mut tree = ContextTree::new();
    assert_eq!(store_dataset(&mut tree, &entries), Ok(()));
    assert_eq!(ContextNode::_get_node_count(&tree), 3);
    let mut chain = ContextHash::new();
    assert_eq!(store_dataset(&mut chain, &entries), Ok(()));
    assert_eq!(chain.len(), 3);
    let mut store: ContextStorage<Context> = ContextStorage::new();
    assert_eq!(store_dataset(&mut store, &entries), Ok(()));
    assert_eq!(store.len(), 2);
    let mut compact: ContextStorage<compact_temp_mapping::Context> = ContextStorage::new();
    assert_eq!(store_dataset(&mut compact, &entries), Ok(()));
    assert_eq!(compact.len(), 2);
}

#[test]
fn dataset_with_unsupported_stack_stops() {
    let mut big = entry(1, 1);
    big.context.stack_size = 400;
    let entries = vec![entry(3, 1), big];
    let mut tree = ContextTree::new();
    assert_eq!(store_dataset(&mut tree, &entries), Err(StoreError::UnsupportedValue));
    assert_eq!(ContextNode::_get_node_count(&tree), 2);
    let mut packed: ContextStorage<PackedContext> = ContextStorage::new();
    assert_eq!(store_dataset(&mut packed, &entries), Err(StoreError::UnsupportedValue));
    let mut plain: ContextStorage<Context> = ContextStorage::new();
    assert_eq!(store_dataset(&mut plain, &entries), Ok(()));
    assert_eq!(plain.len(), 2);
}

#[test]
fn zero_count_entries_are_not_stored() {
    let entries = vec![entry(1, 0)];
    let mut store: ContextStorage<Context> = ContextStorage::new();
    assert_eq!(store_dataset(&mut store, &entries), Ok(()));
    assert_eq!(store.len(), 0);
}

#[test]
fn store_lists_values_in_order_of_first_insertion() {
    let a = entry(1, 1).context;
    let b = entry(2, 1).context;
    let c = entry(3, 1).context;
    let mut store: ContextStorage<Context> = ContextStorage::new();
    store.insert(b);
    store.insert(a);
    store.insert(b);
    store.insert(c);
    assert_eq!(store.len(), 3);
    assert_eq!(*store.get(0), b);
    assert_eq!(*store.get(1), a);
    assert_eq!(*store.get(2), c);
}
