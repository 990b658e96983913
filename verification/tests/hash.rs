use bundler::bundle::{chunk_id, hash_tree};
use bundler::binding::BoundName;
use bundler::hash::{hash_words, ContentHash, Hasher, OFFSET_BASIS, PRIME};
use bundler::merge::OutNode;
use bundler::module::{Atom, LoadedModule, Node};
use bundler::ModuleId;

fn mix(state: u64, word: u64) -> u64 {
    (state ^ word).wrapping_mul(PRIME)
}

#[test]
fn the_digest_of_nothing_is_the_offset_basis() {
    assert_eq!(hash_words(&vec![]), ContentHash(0xcbf2_9ce4_8422_2325));
    assert_eq!(Hasher::new().finish(), ContentHash(OFFSET_BASIS));
}

#[test]
fn the_digest_of_one_word() {
    // (basis ^ 1) * prime, wrapping.
    assert_eq!(hash_words(&vec![1]), ContentHash(0xaf63_bc4c_8601_b62c));
}

#[test]
fn words_are_mixed_in_first_to_last() {
    let expected = mix(mix(mix(OFFSET_BASIS, 3), 1), 2);
    assert_eq!(hash_words(&vec![3, 1, 2]), ContentHash(expected));
    assert_ne!(hash_words(&vec![1, 2, 3]), ContentHash(expected));
    let mut hasher = Hasher::new();
    hasher.write(3);
    hasher.write(1);
    hasher.write(2);
    assert_eq!(hasher.finish(), ContentHash(expected));
}

#[test]
fn the_digest_of_a_set_does_not_depend_on_order() {
    let one = chunk_id(&vec![ModuleId(1), ModuleId(2), ModuleId(3)]);
    let other = chunk_id(&vec![ModuleId(3), ModuleId(1), ModuleId(2)]);
    assert_eq!(one, other);
    let expected = mix(OFFSET_BASIS, 1)
        .wrapping_add(mix(OFFSET_BASIS, 2))
        .wrapping_add(mix(OFFSET_BASIS, 3));
    assert_eq!(one, ContentHash(expected));
    assert_eq!(chunk_id(&vec![]), ContentHash(0));
    assert_ne!(chunk_id(&vec![ModuleId(1)]), chunk_id(&vec![ModuleId(2)]));
}

#[test]
fn a_tree_is_hashed_node_by_node() {
    let tree = vec![
        OutNode::Decl(BoundName::Qualified(Atom(7), ModuleId(2))),
        OutNode::Link { unit: 1, name: BoundName::Plain(Atom(9)) },
        OutNode::Namespace { unit: 4, module: ModuleId(5) },
        OutNode::Free(Atom(6)),
        OutNode::Ref(BoundName::Plain(Atom(8))),
        OutNode::Code { module: ModuleId(3), fragment: 11 },
    ];
    let words = vec![1, 7, 3, 3, 1, 9, 0, 4, 4, 5, 5, 6, 2, 8, 0, 0, 3, 11];
    assert_eq!(hash_tree(&tree), hash_words(&words));
    assert_eq!(hash_tree(&vec![]), ContentHash(OFFSET_BASIS));
}

#[test]
fn a_module_is_hashed_by_its_tree() {
    let module = LoadedModule {
        tree: vec![Node::Decl(Atom(4)), Node::Code(9), Node::Ref(Atom(4))],
        imports: vec![],
        exports: vec![],
    };
    assert_eq!(module.content_hash(), hash_words(&vec![1, 4, 0, 9, 2, 4]));
    let mut other = module.clone();
    assert_eq!(other.content_hash(), module.content_hash());
    other.tree[1] = Node::Code(8);
    assert_ne!(other.content_hash(), module.content_hash());
    other.tree.clear();
    assert_eq!(other.content_hash(), ContentHash(OFFSET_BASIS));
}
