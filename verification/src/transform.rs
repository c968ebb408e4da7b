//! World transforms: the local transforms along a path, multiplied from the
//! root down.
//!
//! The library never looks into a transform. It is handed the local
//! transform of each node and the product of two transforms, and applies
//! that product along a path in the order that places a child relative to
//! its parent.

use vstd::prelude::*;
use crate::scene::SceneView;

verus! {

/// Every node of `chain` has a local transform in `locals`.
pub open spec fn has_locals(chain: Seq<usize>, count: nat) -> bool {
    forall|i: int| 0 <= i < chain.len() ==> chain[i] < count
}

/// `world` is the world transform at the end of the first `n` nodes of
/// `chain`: the local transform of the first node where `n` is one, and
/// else a product that `compose` gives of the world transform of the parent
/// and the local transform of the node, in this order.
pub open spec fn is_world<T, F: Fn(T, T) -> T>(
    compose: F,
    locals: Seq<T>,
    chain: Seq<usize>,
    n: int,
    world: T,
) -> bool
    decreases n,
{
    if n <= 1 {
        n == 1 && world == locals[chain[0] as int]
    } else {
        exists|parent: T|
            is_world(compose, locals, chain, n - 1, parent) && #[trigger] call_ensures(
                compose,
                (parent, locals[chain[n - 1] as int]),
                world,
            )
    }
}

/// A path of a scene is a chain with a world transform, where every node of
/// the scene has a local transform.
pub proof fn lemma_path_has_locals(g: SceneView, path: Seq<usize>)
    requires
        g.is_path(path),
    ensures
        path.len() > 0,
        has_locals(path, g.nodes.len()),
{
    assert forall|i: int| 0 <= i < path.len() implies path[i] < g.nodes.len() by {
        assert(g.step(path, i));
    }
}

/// `compose` gives one product for each pair of transforms.
pub open spec fn is_single_valued<T, F: Fn(T, T) -> T>(compose: F) -> bool {
    forall|a: T, b: T, c: T, d: T|
        #![trigger call_ensures(compose, (a, b), c), call_ensures(compose, (a, b), d)]
        call_ensures(compose, (a, b), c) && call_ensures(compose, (a, b), d) ==> c == d
}

/// A node without ancestors has its local transform for its world
/// transform.
pub proof fn lemma_root_world<T, F: Fn(T, T) -> T>(
    compose: F,
    locals: Seq<T>,
    chain: Seq<usize>,
    world: T,
)
    requires
        chain.len() == 1,
        is_world(compose, locals, chain, 1, world),
    ensures
        world == locals[chain[0] as int],
{
}

/// The world transform of a node is a product of the world transform of its
/// parent and its own local transform, in this order.
pub proof fn lemma_child_world<T, F: Fn(T, T) -> T>(
    compose: F,
    locals: Seq<T>,
    chain: Seq<usize>,
    parent: T,
    world: T,
)
    requires
        chain.len() >= 2,
        is_world(compose, locals, chain.drop_last(), chain.len() - 1, parent),
        call_ensures(compose, (parent, locals[chain.last() as int]), world),
    ensures
        is_world(compose, locals, chain, chain.len() as int, world),
{
    lemma_world_of_prefix(compose, locals, chain.drop_last(), chain, chain.len() - 1, parent);
}

/// The world transform after `n` nodes depends on those nodes alone.
proof fn lemma_world_of_prefix<T, F: Fn(T, T) -> T>(
    compose: F,
    locals: Seq<T>,
    short: Seq<usize>,
    long: Seq<usize>,
    n: int,
    world: T,
)
    requires
        1 <= n <= short.len(),
        short.is_prefix_of(long),
        is_world(compose, locals, short, n, world),
    ensures
        is_world(compose, locals, long, n, world),
    decreases n,
{
    assert(forall|i: int| 0 <= i < short.len() ==> short[i] == long.subrange(0, short.len() as int)[i]);
    if n > 1 {
        let parent = choose|parent: T|
            is_world(compose, locals, short, n - 1, parent) && #[trigger] call_ensures(
                compose,
                (parent, locals[short[n - 1] as int]),
                world,
            );
        lemma_world_of_prefix(compose, locals, short, long, n - 1, parent);
        assert(short[n - 1] == long[n - 1]);
    } else {
        assert(short[0] == long[0]);
    }
}

/// Where each product is one value, so is each world transform: the same
/// chain over the same local transforms gives the same world transform.
pub proof fn lemma_world_unique<T, F: Fn(T, T) -> T>(
    compose: F,
    locals: Seq<T>,
    chain: Seq<usize>,
    n: int,
    first: T,
    second: T,
)
    requires
        is_single_valued(compose),
        is_world(compose, locals, chain, n, first),
        is_world(compose, locals, chain, n, second),
    ensures
        first == second,
    decreases n,
{
    if n > 1 {
        let p = choose|parent: T|
            is_world(compose, locals, chain, n - 1, parent) && #[trigger] call_ensures(
                compose,
                (parent, locals[chain[n - 1] as int]),
                first,
            );
        let q = choose|parent: T|
            is_world(compose, locals, chain, n - 1, parent) && #[trigger] call_ensures(
                compose,
                (parent, locals[chain[n - 1] as int]),
                second,
            );
        lemma_world_unique(compose, locals, chain, n - 1, p, q);
    }
}

/// The world transform at the end of `chain`, from the local transforms of
/// the nodes by index: none for an empty chain, and none where a node of the
/// chain has no local transform.
pub fn world_transform<T: Copy, F: Fn(T, T) -> T>(
    chain: &Vec<usize>,
    locals: &Vec<T>,
    compose: F,
) -> (world: Option<T>)
    requires
        forall|a: T, b: T| call_requires(compose, (a, b)),
    ensures
        world is Some <==> chain@.len() > 0 && has_locals(chain@, locals@.len()),
        world matches Some(w) ==> is_world(compose, locals@, chain@, chain@.len() as int, w),
{
    if chain.len() == 0 || chain[0] >= locals.len() {
        return None;
    }
    let mut world = locals[chain[0]];
    let mut n: usize = 1;
    while n < chain.len()
        invariant
            forall|a: T, b: T| call_requires(compose, (a, b)),
            1 <= n <= chain@.len(),
            forall|i: int| 0 <= i < n ==> chain@[i] < locals@.len(),
            is_world(compose, locals@, chain@, n as int, world),
        decreases chain@.len() - n,
    {
        if chain[n] >= locals.len() {
            return None;
        }
        let ghost parent = world;
        world = compose(world, locals[chain[n]]);
        n += 1;
        assert(call_ensures(compose, (parent, locals@[chain@[n - 1] as int]), world));
    }
    Some(world)
}

} // verus!
