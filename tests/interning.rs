use context_packing::compact_temp_mapping;
use context_packing::hash_cons::{ChainError, ContextHash, ContextId, SinglyLinkedList};
use context_packing::hash_cons_2::{ContextNode, ContextTree};
use context_packing::initial_context::{Context, TempMapping, Type};
use context_packing::packed_context::{ContextDelta, PackError};

fn with_depth(depth: u8) -> Context {
    let mut c = Context::default();
    c.self_type = Type::Fixnum;
    c.local_types[2] = Type::True;
    c.chain_depth = depth;
    c
}

#[test]
fn contexts_differing_in_chain_depth_share_their_prefix() {
    let mut tree = ContextTree::new();
    let a = with_depth(1);
    let b = with_depth(2);
    let mut na = 0;
    let mut nb = 0;
    for _ in 0..5 {
        na = tree.compress(&a).unwrap();
    }
    for _ in 0..5 {
        nb = tree.compress(&b).unwrap();
    }
    assert_ne!(na, nb);
    // root, SelfType, then ChainDepth(1) and ChainDepth(2) each under it,
    // then the LocalType under each
    assert_eq!(ContextNode::_get_node_count(&tree), 6);
    let pa = tree.parent(na).unwrap();
    let pb = tree.parent(nb).unwrap();
    assert_eq!(tree.delta(pa), ContextDelta::ChainDepth(1));
    assert_eq!(tree.delta(pb), ContextDelta::ChainDepth(2));
    let shared = tree.parent(pa).unwrap();
    assert_eq!(tree.parent(pb), Some(shared));
    assert_eq!(tree.delta(shared), ContextDelta::SelfType(Type::Fixnum));
    assert_eq!(tree.parent(shared), Some(0));
    assert_eq!(tree.children(shared).len(), 2);
}

#[test]
fn prefix_tree_interns_equal_contexts_to_one_node() {
    let mut tree = ContextTree::new();
    let n1 = tree.compress(&with_depth(3)).unwrap();
    let count = ContextNode::_get_node_count(&tree);
    let n2 = tree.compress(&with_depth(3)).unwrap();
    assert_eq!(n1, n2);
    assert_eq!(ContextNode::_get_node_count(&tree), count);
}

#[test]
fn prefix_tree_default_context_is_root() {
    let mut tree = ContextTree::default();
    assert_eq!(tree.compress(&Context::default()), Ok(0));
    assert_eq!(ContextNode::_get_node_count(&tree), 1);
    assert_eq!(tree.parent(0), None);
}

#[test]
fn prefix_tree_rejects_large_stack() {
    let mut tree = ContextTree::new();
    let mut c = Context::default();
    c.stack_size = 1000;
    assert_eq!(tree.compress(&c), Err(PackError::UnsupportedValue));
    assert_eq!(ContextNode::_get_node_count(&tree), 1);
}

#[test]
fn suffix_chain_interns_equal_contexts_to_one_key() {
    let mut chain = ContextHash::new();
    let k1 = chain.insert(&with_depth(4)).unwrap();
    let len = chain.len();
    let k2 = chain.insert(&with_depth(4)).unwrap();
    assert_eq!(k1, k2);
    assert_eq!(chain.len(), len);
    // three deltas and the terminator
    assert_eq!(len, 4);
}

#[test]
fn suffix_chain_rebuilds_reversed_deltas() {
    let mut chain = ContextHash::default();
    let k = chain.insert(&with_depth(4)).unwrap();
    assert_eq!(
        chain.get_deltas(k),
        vec![
            ContextDelta::LocalType(2, Type::True),
            ContextDelta::ChainDepth(4),
            ContextDelta::SelfType(Type::Fixnum),
            ContextDelta::Terminator,
        ]
    );
}

#[test]
fn suffix_chain_shares_common_suffix() {
    let mut chain = ContextHash::new();
    let a = with_depth(1);
    let mut b = with_depth(1);
    b.temp_mapping[1] = TempMapping::MapToSelf;
    let ka = chain.insert(&a).unwrap();
    assert_eq!(chain.len(), 4);
    let kb = chain.insert(&b).unwrap();
    assert_ne!(ka, kb);
    // b adds only the link of its extra delta, which heads its list
    assert_eq!(chain.len(), 5);
    let links = chain.links();
    let head = links.iter().find(|(id, _)| *id == kb).unwrap().1;
    assert_eq!(
        head,
        SinglyLinkedList {
            head: Some(ContextDelta::TempMapping1(compact_temp_mapping::TempMapping::MapToSelf)),
            tail: Some(ka),
        }
    );
}

#[test]
fn suffix_chain_unknown_key_gives_nothing() {
    let mut chain = ContextHash::new();
    let k = chain.insert(&with_depth(2)).unwrap();
    let other = ContextId(k.0.wrapping_add(1));
    if !chain.links().iter().any(|(id, _)| *id == other) {
        assert!(chain.get_deltas(other).is_empty());
    }
}

#[test]
fn suffix_chain_hash_depends_on_deltas() {
    let chain = ContextHash::new();
    let a = [ContextDelta::ChainDepth(1), ContextDelta::Terminator];
    let b = [ContextDelta::ChainDepth(2), ContextDelta::Terminator];
    assert_eq!(chain.get_hash(&a), chain.get_hash(&a));
    assert_ne!(chain.get_hash(&a), chain.get_hash(&b));
    assert_ne!(chain.get_hash(&a), chain.get_hash(&a[1..]));
}

#[test]
fn suffix_chain_rejects_large_stack() {
    let mut chain = ContextHash::new();
    let mut c = Context::default();
    c.sp_offset = 300;
    assert_eq!(chain.insert(&c), Err(ChainError::Pack(PackError::UnsupportedValue)));
    assert_eq!(chain.len(), 0);
}

#[test]
fn default_context_is_the_terminator_alone() {
    let mut chain = ContextHash::new();
    let k = chain.insert(&Context::default()).unwrap();
    assert_eq!(chain.get_deltas(k), vec![ContextDelta::Terminator]);
    assert_eq!(chain.len(), 1);
}
