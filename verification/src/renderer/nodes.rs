//! The registry of mounted nodes.

use super::node::Node;
use crate::str_map::StrMap;
use crate::utils::{is_ancestor_id_of, spec_is_ancestor};
use vstd::prelude::*;

verus! {

/// The mounted nodes, each under its identifier and depth. A component
/// stands at one depth and what it renders one deeper, under the same
/// identifier.
#[derive(Debug)]
pub struct Nodes {
    map: StrMap<Vec<Option<Node>>>,
}

/// Puts `value` into the slot at `at` and hands back what stood there.
fn swap_slot(layers: &mut Vec<Option<Node>>, at: usize, value: Option<Node>) -> (previous: Option<
    Node,
>)
    requires
        at < old(layers)@.len(),
    ensures
        final(layers)@ == old(layers)@.update(at as int, value),
        previous == old(layers)@[at as int],
{
    let previous = layers.remove(at);
    layers.insert(at, value);
    assert(layers@ =~= old(layers)@.update(at as int, value));
    previous
}

/// The node in the slot at `d`, where there is such a slot.
spec fn layer(layers: Seq<Option<Node>>, d: int) -> Option<Node> {
    if 0 <= d < layers.len() {
        layers[d]
    } else {
        None
    }
}

/// Drops the empty slots at the end.
fn trim(layers: &mut Vec<Option<Node>>)
    ensures
        final(layers)@.len() <= old(layers)@.len(),
        final(layers)@ == old(layers)@.take(final(layers)@.len() as int),
        final(layers)@.len() > 0 ==> final(layers)@.last() is Some,
        forall|d: int| final(layers)@.len() <= d < old(layers)@.len() ==> old(layers)@[d] is None,
        forall|d: int| #[trigger] layer(final(layers)@, d) == layer(old(layers)@, d),
{
    while layers.len() > 0 && layers[layers.len() - 1].is_none()
        invariant
            layers@.len() <= old(layers)@.len(),
            layers@ == old(layers)@.take(layers@.len() as int),
            forall|d: int| layers@.len() <= d < old(layers)@.len() ==> old(layers)@[d] is None,
        decreases layers@.len(),
    {
        let ghost before = layers@;
        let _ = layers.pop();
        assert(layers@ =~= old(layers)@.take(layers@.len() as int));
    }
    assert forall|d: int| #[trigger] layer(layers@, d) == layer(old(layers)@, d) by {
        if 0 <= d < layers@.len() {
            assert(layers@[d] == old(layers)@.take(layers@.len() as int)[d]);
        }
    }
}

impl Nodes {
    #[verifier::type_invariant]
    spec fn wf(self) -> bool {
        forall|id: Seq<char>| #[trigger]
            self.map@.contains_key(id) ==> self.map@[id]@.len() > 0 && self.map@[id]@.last() is Some
    }

    /// The node mounted under `id` at `depth`.
    pub closed spec fn node_at(self, id: Seq<char>, depth: int) -> Option<Node> {
        if self.map@.contains_key(id) {
            layer(self.map@[id]@, depth)
        } else {
            None
        }
    }

    /// Whether no node is mounted.
    pub open spec fn spec_is_empty(self) -> bool {
        forall|id: Seq<char>, depth: int| #[trigger] self.node_at(id, depth) is None
    }

    /// Whether the layers under `id` from `from` to `to` are all mounted.
    pub open spec fn run(self, id: Seq<char>, from: int, to: int) -> bool {
        forall|d: int| from <= d <= to ==> #[trigger] self.node_at(id, d) is Some
    }

    pub fn new() -> (nodes: Self)
        ensures
            nodes.spec_is_empty(),
    {
        Nodes { map: StrMap::new() }
    }

    pub fn is_empty(&self) -> (b: bool)
        ensures
            b == self.spec_is_empty(),
    {
        proof {
            use_type_invariant(self);
        }
        self.map.facts();
        let b = self.map.is_empty();
        proof {
            if !b {
                let id = self.map.keys()[0];
                assert(self.map@.contains_key(id));
                assert(self.node_at(id, self.map@[id]@.len() - 1) is Some);
            }
        }
        b
    }

    pub fn get_at_depth(&self, id: &str, depth: usize) -> (r: Option<&Node>)
        ensures
            r is Some == self.node_at(id@, depth as int) is Some,
            r matches Some(node) ==> *node == self.node_at(id@, depth as int)->0,
    {
        match self.map.get(id) {
            Some(layers) => {
                if depth < layers.len() {
                    layers[depth].as_ref()
                } else {
                    None
                }
            },
            None => None,
        }
    }

    pub fn get(&self, id: &str) -> (r: Option<&Node>)
        ensures
            r is Some == self.node_at(id@, 0) is Some,
            r matches Some(node) ==> *node == self.node_at(id@, 0)->0,
    {
        self.get_at_depth(id, 0)
    }

    /// Whether a node is mounted under `id` at `depth`.
    pub fn contains(&self, id: &str, depth: usize) -> (b: bool)
        ensures
            b == self.node_at(id@, depth as int) is Some,
    {
        self.get_at_depth(id, depth).is_some()
    }

    /// Mounts `node` under `id` at `depth`, in the place of a node mounted
    /// there before.
    pub fn insert_at_depth(&mut self, id: String, depth: usize, node: Node)
        requires
            depth < usize::MAX,
        ensures
            final(self).node_at(id@, depth as int) == Some(node),
            forall|at: Seq<char>, d: int|
                at != id@ || d != depth ==> #[trigger] final(self).node_at(at, d) == old(
                    self,
                ).node_at(at, d),
    {
        proof {
            use_type_invariant(&*self);
        }
        let ghost before = *self;
        let mut map: StrMap<Vec<Option<Node>>> = StrMap::new();
        std::mem::swap(&mut self.map, &mut map);
        map.facts();
        let found = map.position(id.as_str());
        let mut layers: Vec<Option<Node>> = match found {
            Some(i) => map.replace_at(i, Vec::new()),
            None => Vec::new(),
        };
        let ghost held = layers@;
        while layers.len() < depth
            invariant
                held.len() <= layers@.len(),
                layers@.take(held.len() as int) == held,
                forall|d: int| held.len() <= d < layers@.len() ==> layers@[d] is None,
                layers@.len() <= depth || layers@ == held,
            decreases depth - layers@.len(),
        {
            layers.push(None);
            assert(layers@.take(held.len() as int) =~= held);
        }
        if layers.len() == depth {
            layers.push(Some(node));
            assert(layers@.take(held.len() as int) =~= held);
        } else {
            let _ = swap_slot(&mut layers, depth, Some(node));
            assert(layers@.len() == held.len());
        }
        match found {
            Some(i) => {
                let _ = map.replace_at(i, layers);
            },
            None => {
                map.insert(id, layers);
            },
        }
        self.map = map;
        proof {
            assert forall|at: Seq<char>, d: int| at != id@ || d != depth implies #[trigger] self.node_at(
                at,
                d,
            ) == before.node_at(at, d) by {
                if at == id@ && 0 <= d < layers@.len() {
                    if d < held.len() {
                        assert(layers@[d] == layers@.take(held.len() as int)[d]);
                    }
                }
            }
        }
    }

    /// Takes the node under `id` at `depth` out and leaves the layers
    /// below it standing.
    pub fn take_at_depth(&mut self, id: &str, depth: usize) -> (r: Option<Node>)
        ensures
            r == old(self).node_at(id@, depth as int),
            r is Some ==> depth < usize::MAX,
            final(self).node_at(id@, depth as int) is None,
            forall|at: Seq<char>, d: int|
                at != id@ || d != depth ==> #[trigger] final(self).node_at(at, d) == old(
                    self,
                ).node_at(at, d),
    {
        proof {
            use_type_invariant(&*self);
        }
        let ghost before = *self;
        let mut map: StrMap<Vec<Option<Node>>> = StrMap::new();
        std::mem::swap(&mut self.map, &mut map);
        map.facts();
        let mut taken: Option<Node> = None;
        let ghost mut was: Seq<Option<Node>> = Seq::empty();
        let ghost mut now: Seq<Option<Node>> = Seq::empty();
        match map.position(id) {
            Some(i) => {
                let mut layers = map.replace_at(i, Vec::new());
                let ghost held = layers@;
                if depth < layers.len() {
                    taken = swap_slot(&mut layers, depth, None);
                }
                let ghost cut = layers@;
                trim(&mut layers);
                let ghost trimmed = layers@;
                if layers.len() == 0 {
                    let _ = map.remove(id);
                } else {
                    let _ = map.replace_at(i, layers);
                }
                proof {
                    assert forall|d: int| #[trigger] layer(trimmed, d) == (if d == depth {
                        None
                    } else {
                        layer(held, d)
                    }) by {
                        assert(layer(trimmed, d) == layer(cut, d));
                    }
                    was = held;
                    now = trimmed;
                }
            },
            None => {},
        }
        self.map = map;
        proof {
            assert forall|at: Seq<char>, d: int| at != id@ || d != depth implies #[trigger] self.node_at(
                at,
                d,
            ) == before.node_at(at, d) by {
                if at == id@ && before.map@.contains_key(id@) {
                    assert(layer(now, d) == layer(was, d));
                }
            }
            if before.map@.contains_key(id@) {
                assert(layer(now, depth as int) is None);
            }
        }
        taken
    }

    /// Takes the node under `id` at `depth` out, and with it the layers
    /// that stand below it without a gap.
    pub fn remove_at_depth(&mut self, id: &str, depth: usize) -> (r: Option<Node>)
        ensures
            r == old(self).node_at(id@, depth as int),
            forall|at: Seq<char>, d: int|
                #![trigger final(self).node_at(at, d)]
                final(self).node_at(at, d) == (if at == id@ && (d == depth || (d > depth && old(
                    self,
                ).run(id@, depth + 1, d))) {
                    None
                } else {
                    old(self).node_at(at, d)
                }),
    {
        proof {
            use_type_invariant(&*self);
        }
        let ghost before = *self;
        let mut map: StrMap<Vec<Option<Node>>> = StrMap::new();
        std::mem::swap(&mut self.map, &mut map);
        map.facts();
        let mut taken: Option<Node> = None;
        let ghost mut was: Seq<Option<Node>> = Seq::empty();
        let ghost mut now: Seq<Option<Node>> = Seq::empty();
        match map.position(id) {
            Some(i) => {
                let mut layers = map.replace_at(i, Vec::new());
                let ghost held = layers@;
                if depth < layers.len() {
                    taken = swap_slot(&mut layers, depth, None);
                    let mut current: usize = depth + 1;
                    while current < layers.len() && layers[current].is_some()
                        invariant
                            depth < current <= layers@.len(),
                            layers@.len() == held.len(),
                            forall|d: int| depth < d < current ==> held[d] is Some,
                            forall|d: int|
                                0 <= d < held.len() ==> #[trigger] layers@[d] == (if depth <= d
                                    < current {
                                    None
                                } else {
                                    held[d]
                                }),
                        decreases layers@.len() - current,
                    {
                        let _ = swap_slot(&mut layers, current, None);
                        current = current + 1;
                    }
                    proof {
                        assert(layers@.len() == held.len());
                        assert forall|d: int| 0 <= d < held.len() implies #[trigger] layers@[d] == (
                        if d == depth || (d > depth && before.run(id@, depth + 1, d)) {
                            None
                        } else {
                            held[d]
                        }) by {
                            if d >= current {
                                if before.run(id@, depth + 1, d) {
                                    if current < held.len() {
                                        assert(before.node_at(id@, current as int) is Some);
                                    }
                                }
                            } else if d > depth {
                                assert forall|e: int| depth + 1 <= e <= d implies #[trigger] before.node_at(
                                    id@,
                                    e,
                                ) is Some by {
                                    assert(held[e] is Some);
                                }
                            }
                        }
                    }
                } else {
                    proof {
                        assert forall|d: int|
                            d > depth implies !(#[trigger] before.run(id@, depth + 1, d)) by {
                            if before.run(id@, depth + 1, d) {
                                assert(before.node_at(id@, d) is Some);
                            }
                        }
                    }
                }
                let ghost cut = layers@;
                proof {
                    assert forall|d: int| #[trigger] layer(cut, d) == (if d == depth || (d > depth
                        && before.run(id@, depth + 1, d)) {
                        None
                    } else {
                        layer(held, d)
                    }) by {
                        if !(0 <= d < held.len()) {
                            if d > depth && before.run(id@, depth + 1, d) {
                                assert(before.node_at(id@, d) is Some);
                            }
                        } else {
                            assert(cut[d] == layers@[d]);
                        }
                    }
                }
                trim(&mut layers);
                let ghost trimmed = layers@;
                if layers.len() == 0 {
                    let _ = map.remove(id);
                } else {
                    let _ = map.replace_at(i, layers);
                }
                proof {
                    assert forall|d: int| #[trigger] layer(trimmed, d) == (if d == depth || (d
                        > depth && before.run(id@, depth + 1, d)) {
                        None
                    } else {
                        layer(held, d)
                    }) by {
                        assert(layer(trimmed, d) == layer(cut, d));
                    }
                    was = held;
                    now = trimmed;
                }
            },
            None => {
                proof {
                    assert forall|d: int|
                        d > depth implies !(#[trigger] before.run(id@, depth + 1, d)) by {
                        if before.run(id@, depth + 1, d) {
                            assert(before.node_at(id@, d) is Some);
                        }
                    }
                }
            },
        }
        self.map = map;
        proof {
            assert forall|at: Seq<char>, d: int|
                #![trigger self.node_at(at, d)]
                self.node_at(at, d) == (if at == id@ && (d == depth || (d > depth && before.run(
                    id@,
                    depth + 1,
                    d,
                ))) {
                    None
                } else {
                    before.node_at(at, d)
                }) by {
                if at == id@ {
                    if before.map@.contains_key(id@) {
                        assert(layer(now, d) == (if d == depth || (d > depth && before.run(
                            id@,
                            depth + 1,
                            d,
                        )) {
                            None
                        } else {
                            layer(was, d)
                        }));
                    } else {
                        if d > depth && before.run(id@, depth + 1, d) {
                            assert(before.node_at(id@, d) is Some);
                        }
                    }
                }
            }
        }
        taken
    }

    /// Takes every node out that stands under `id` or below it in the
    /// tree.
    pub fn remove_under(&mut self, id: &str)
        ensures
            forall|at: Seq<char>, d: int|
                #![trigger final(self).node_at(at, d)]
                final(self).node_at(at, d) == (if spec_is_ancestor(id@, at) {
                    None
                } else {
                    old(self).node_at(at, d)
                }),
    {
        proof {
            use_type_invariant(&*self);
        }
        let ghost before = *self;
        let mut rest: StrMap<Vec<Option<Node>>> = StrMap::new();
        std::mem::swap(&mut self.map, &mut rest);
        let mut kept: StrMap<Vec<Option<Node>>> = StrMap::new();
        while rest.len() > 0
            invariant
                forall|at: Seq<char>| #[trigger]
                    rest@.contains_key(at) ==> before.map@.contains_key(at) && rest@[at]
                        == before.map@[at] && !kept@.contains_key(at),
                forall|at: Seq<char>|
                    #![trigger kept@.contains_key(at)]
                    !rest@.contains_key(at) ==> (kept@.contains_key(at) <==> before.map@.contains_key(
                        at,
                    ) && !spec_is_ancestor(id@, at)),
                forall|at: Seq<char>| #[trigger]
                    kept@.contains_key(at) ==> kept@[at] == before.map@[at],
                forall|at: Seq<char>| #[trigger]
                    before.map@.contains_key(at) ==> before.map@[at]@.len() > 0
                        && before.map@[at]@.last() is Some,
            decreases rest.keys().len(),
        {
            rest.facts();
            let key = rest.key_at(0).clone();
            let ghost held_rest = rest@;
            let ghost held_kept = kept@;
            let ghost n = rest.keys().len();
            assert(rest@.contains_key(key@));
            let layers = rest.remove(key.as_str());
            assert(rest.keys().len() < n);
            match layers {
                Some(layers) => {
                    if !is_ancestor_id_of(id, key.as_str()) {
                        kept.insert(key, layers);
                    }
                },
                None => {},
            }
        }
        rest.facts();
        proof {
            assert forall|at: Seq<char>| !rest@.contains_key(at) by {
                if rest@.contains_key(at) {
                    assert(rest.keys().contains(at));
                }
            }
        }
        self.map = kept;
    }
}

} // verus!
