//! What holds of every property diff.

use super::diff_props::{patched, spec_diff_object, spec_diff_props};
use crate::prop::{bits_nan, same, same_entries, same_items, Prop, PropView, Props};
use vstd::prelude::*;

verus! {

/// Whether a value can be compared with itself: none of its numbers is a
/// NaN, and its objects have finitely many names.
pub open spec fn comparable(v: PropView) -> bool
    decreases v,
{
    match v {
        PropView::Number(x) => !bits_nan(x),
        PropView::Array(items) => forall|i: int|
            0 <= i < items.len() ==> comparable(#[trigger] items[i]),
        PropView::Object(m) => m.dom().finite() && forall|k: Seq<char>|
            m.contains_key(k) ==> comparable(#[trigger] m[k]),
        _ => true,
    }
}

/// Whether a map and the objects nested in it have finitely many names.
pub open spec fn finite_deep(m: Map<Seq<char>, PropView>) -> bool
    decreases m,
{
    m.dom().finite() && forall|k: Seq<char>|
        m.contains_key(k) && (#[trigger] m[k]) is Object ==> finite_deep(m[k]->Object_0)
}

/// Every property map, and every object nested in one, has finitely many
/// names.
pub proof fn lemma_props_finite(props: Props)
    ensures
        finite_deep(props@),
    decreases props,
{
    props.lemma_view();
    let keys = props.keys();
    let values = props.values();
    assert(props@.dom() =~= keys.to_set());
    vstd::seq_lib::seq_to_set_is_finite(keys);
    assert forall|k: Seq<char>|
        props@.contains_key(k) && (#[trigger] props@[k]) is Object implies finite_deep(
        props@[k]->Object_0,
    ) by {
        let i = keys.index_of(k);
        assert(keys[i] == k);
        let entry = props.map.entries@[i];
        assert(props@[k] == entry.1@);
        match entry.1 {
            Prop::Object(inner) => {
                lemma_props_finite(inner);
            },
            _ => {},
        }
    }
}

/// Whether neither a map nor an object nested in it holds null.
pub open spec fn no_null(m: Map<Seq<char>, PropView>) -> bool
    decreases m,
{
    m.dom().finite() && forall|k: Seq<char>|
        m.contains_key(k) ==> !((#[trigger] m[k]) is Null) && (m[k] is Object ==> no_null(
            m[k]->Object_0,
        ))
}

/// A map with a patch applied: null takes a name out, an object patches
/// the object that stands under the name, any other value is set.
pub open spec fn apply_patch(
    target: Map<Seq<char>, PropView>,
    patch: Map<Seq<char>, PropView>,
) -> Map<Seq<char>, PropView>
    decreases patch,
{
    Map::new(
        |k: Seq<char>|
            if patch.contains_key(k) {
                !(patch[k] is Null)
            } else {
                target.contains_key(k)
            },
        |k: Seq<char>|
            if patch.contains_key(k) {
                if patch.dom().finite() && patch[k] is Object && target.contains_key(k)
                    && target[k] is Object {
                    PropView::Object(apply_patch(target[k]->Object_0, patch[k]->Object_0))
                } else {
                    patch[k]
                }
            } else {
                target[k]
            },
    )
}

/// A value without NaN equals itself.
pub proof fn lemma_same_reflexive(v: PropView)
    requires
        comparable(v),
    ensures
        same(v, v),
    decreases v,
{
    match v {
        PropView::Array(items) => {
            assert forall|i: int|
                0 <= i < items.len() implies same(#[trigger] items[i], items[i]) by {
                lemma_same_reflexive(items[i]);
            }
            assert(same_items(items, items));
        },
        PropView::Object(m) => {
            assert forall|k: Seq<char>| m.contains_key(k) implies same(#[trigger] m[k], m[k]) by {
                lemma_same_reflexive(m[k]);
            }
            assert(same_entries(m, m));
        },
        _ => {},
    }
}

/// Props round trip, first half: a map without NaN has no patch against
/// itself.
pub proof fn lemma_diff_self(p: Map<Seq<char>, PropView>)
    requires
        comparable(PropView::Object(p)),
    ensures
        spec_diff_object(p, p).dom() =~= Set::empty(),
        spec_diff_props(PropView::Object(p), PropView::Object(p)) == PropView::Null,
{
    assert forall|k: Seq<char>| !patched(p, p, k) by {
        if p.contains_key(k) {
            lemma_same_reflexive(p[k]);
        }
    }
}

/// Two objects that differ have a patch between them.
pub proof fn lemma_different_maps_patch(p: Map<Seq<char>, PropView>, q: Map<Seq<char>, PropView>)
    requires
        p.dom().finite(),
        !same_entries(p, q),
    ensures
        !(spec_diff_object(p, q).dom() =~= Set::empty()),
{
    let d = spec_diff_object(p, q);
    if d.dom() =~= Set::empty() {
        assert forall|k: Seq<char>| p.contains_key(k) <==> q.contains_key(k) by {
            assert(!d.contains_key(k));
        }
        assert forall|k: Seq<char>| p.contains_key(k) implies same(#[trigger] p[k], q[k]) by {
            assert(!d.contains_key(k));
        }
        assert(p.dom() =~= q.dom());
        assert(same_entries(p, q));
    }
}

/// The patch between two finite maps has finitely many names.
proof fn lemma_patch_finite(p: Map<Seq<char>, PropView>, q: Map<Seq<char>, PropView>)
    requires
        p.dom().finite(),
        q.dom().finite(),
    ensures
        spec_diff_object(p, q).dom().finite(),
{
    let d = spec_diff_object(p, q);
    assert(d.dom().subset_of(p.dom().union(q.dom())));
    vstd::set_lib::lemma_set_subset_finite(p.dom().union(q.dom()), d.dom());
}

/// Props round trip, second half: the patch from `p` to `q`, applied to
/// `p`, gives a map equal to `q`, where `q` holds neither NaN nor null.
pub proof fn lemma_round_trip(p: Map<Seq<char>, PropView>, q: Map<Seq<char>, PropView>)
    requires
        finite_deep(p),
        comparable(PropView::Object(q)),
        no_null(q),
    ensures
        same_entries(apply_patch(p, spec_diff_object(p, q)), q),
    decreases p,
{
    let d = spec_diff_object(p, q);
    let r = apply_patch(p, d);
    lemma_patch_finite(p, q);
    assert forall|k: Seq<char>| r.contains_key(k) <==> q.contains_key(k) by {
        if d.contains_key(k) && q.contains_key(k) {
            if p.contains_key(k) {
                if p[k] is Object && q[k] is Object {
                    assert(finite_deep(p[k]->Object_0));
                    assert(!same(p[k], q[k]));
                    assert(!same_entries(p[k]->Object_0, q[k]->Object_0));
                    lemma_different_maps_patch(p[k]->Object_0, q[k]->Object_0);
                }
            }
        }
    }
    assert(r.dom() =~= q.dom());
    assert forall|k: Seq<char>| r.contains_key(k) implies same(#[trigger] r[k], q[k]) by {
        lemma_same_reflexive(q[k]);
        if d.contains_key(k) {
            if p.contains_key(k) && p[k] is Object && q[k] is Object {
                let pk = p[k]->Object_0;
                let qk = q[k]->Object_0;
                assert(finite_deep(pk));
                assert(comparable(q[k]));
                assert(no_null(qk));
                assert(!same(p[k], q[k]));
                assert(!same_entries(pk, qk));
                lemma_different_maps_patch(pk, qk);
                lemma_round_trip(pk, qk);
                assert(d[k] == PropView::Object(spec_diff_object(pk, qk)));
                assert(r[k] == PropView::Object(apply_patch(pk, spec_diff_object(pk, qk))));
            } else {
                assert(d[k] == q[k]);
                assert(r[k] == q[k]);
            }
        } else {
            assert(r[k] == p[k]);
            assert(same(p[k], q[k]));
        }
    }
}

} // verus!
