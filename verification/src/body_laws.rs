//! What editing a body keeps and what it changes.

use vstd::prelude::*;

use crate::body::{
    body_tree, bus_path, children, children_path, direct_parent, each_has_id, each_has_ids,
    each_layer_fits, fields_fit, has_list, id_in_each, id_or_none, ids_in_each, ids_or_none,
    layer_children, list_at, nonzero, node_path, override_bus, own_fields_fit, parent_path,
    references, renumbered_body, well_formed, with_children, with_id, without_id, BodyView,
};
use crate::json::{
    at, ids_at, ids_view, lemma_ids_read_back, lemma_put_at, lemma_put_elsewhere, named, put,
    u32_at, JsonView,
};
use crate::json_text::{
    all_keys_distinct, all_numbers_plain, distinct_keys, nested_within, printable, storable,
};
use crate::kind::BodyKind;
use crate::renumber::{
    lemma_renumbered_as_ids, lemma_renumbered_at, lemma_renumbered_nesting,
    lemma_renumbered_printable, renumbered, renumbered_id, renumbered_ids,
};
use crate::seqs::{ascending, first_where, lemma_sorted, lemma_sorted_form_unique, sorted};

verus! {

/// Putting a list of ids where a list was leaves the tree storable.
proof fn lemma_put_storable(v: JsonView, path: Seq<Seq<char>>, ids: Seq<u32>, depth: int)
    requires
        printable(v),
        nested_within(v, depth),
        has_list(v, path),
    ensures
        printable(put(v, path, ids_view(ids))),
        nested_within(put(v, path, ids_view(ids)), depth),
    decreases path.len(),
{
    let new = ids_view(ids);
    if path.len() == 0 {
        let items = new->Array_0;
        assert forall|i: int| 0 <= i < items.len() implies all_keys_distinct(#[trigger] items[i])
            && all_numbers_plain(items[i]) && nested_within(items[i], depth - 1) by {
            assert(items[i] == JsonView::Unsigned(ids[i] as u64));
        }
        assert(all_keys_distinct(new));
        assert(all_numbers_plain(new));
    } else if let JsonView::Object(members) = v {
        let p = named(path[0]);
        let i = first_where(members, p);
        crate::seqs::lemma_first_where_points(members, p);
        assert(all_keys_distinct(members[i].1));
        assert(all_numbers_plain(members[i].1));
        assert(nested_within(members[i].1, depth - 1));
        lemma_put_storable(members[i].1, path.skip(1), ids, depth - 1);
        let changed = members.update(i, (members[i].0, put(members[i].1, path.skip(1), new)));
        let r = JsonView::Object(changed);
        assert forall|k: int| 0 <= k < changed.len() implies all_keys_distinct(
            (#[trigger] changed[k]).1,
        ) && all_numbers_plain(changed[k].1) && nested_within(changed[k].1, depth - 1) by {
            if k != i {
                assert(changed[k] == members[k]);
            }
        }
        assert(distinct_keys(changed));
        assert(all_keys_distinct(r));
        assert(all_numbers_plain(r));
        assert(nested_within(r, depth));
    }
}

/// Replacing the children leaves what stands at the end of another path that parts from theirs.
proof fn lemma_children_elsewhere(body: BodyView, ids: Seq<u32>, other: Seq<Seq<char>>, fork: int)
    requires
        children_path(body.kind) is Some,
        0 <= fork < children_path(body.kind).unwrap().len(),
        fork < other.len(),
        children_path(body.kind).unwrap()[fork] != other[fork],
        forall|k: int| 0 <= k < fork ==> children_path(body.kind).unwrap()[k] == other[k],
    ensures
        at(with_children(body, ids).fields, other) == at(body.fields, other),
{
    lemma_put_elsewhere(
        body.fields,
        children_path(body.kind).unwrap(),
        other,
        ids_view(ids),
        fork,
    );
}

proof fn lemma_field_names()
    ensures
        "children"@ != "node_base_params"@,
        "children"@ != "switch_groups"@,
        "children"@ != "layers"@,
{
    reveal_strlit("children");
    reveal_strlit("node_base_params");
    reveal_strlit("switch_groups");
    reveal_strlit("layers");
    assert("children"@.len() == 8);
    assert("node_base_params"@.len() == 16);
    assert("switch_groups"@.len() == 13);
    assert("layers"@.len() == 6);
}

/// New children are read back, and nothing else about the body changes: it stays complete, in its
/// place, and on its bus.
pub proof fn lemma_with_children(body: BodyView, ids: Seq<u32>)
    requires
        well_formed(body),
        children(body) is Some,
    ensures
        children(with_children(body, ids)) == Some(ids),
        well_formed(with_children(body, ids)),
        direct_parent(with_children(body, ids)) == direct_parent(body),
        override_bus(with_children(body, ids)) == override_bus(body),
        with_children(body, ids).kind == body.kind,
{
    let path = children_path(body.kind).unwrap();
    let after = with_children(body, ids);
    lemma_field_names();
    lemma_put_at(body.fields, path, ids_view(ids));
    lemma_ids_read_back(ids);
    let fork = path.len() - 2;
    assert(path[fork] == "children"@);
    let node = node_path(body.kind).unwrap();
    assert(node[fork] == "node_base_params"@);
    let parent = parent_path(body.kind).unwrap();
    let bus = bus_path(body.kind).unwrap();
    lemma_children_elsewhere(body, ids, parent, fork);
    lemma_children_elsewhere(body, ids, bus, fork);
    if body.kind is SwitchContainer {
        lemma_children_elsewhere(body, ids, seq!["switch_groups"@], 0);
    }
    if body.kind is LayerContainer {
        lemma_children_elsewhere(body, ids, seq!["layers"@], 0);
    }
    assert(own_fields_fit(after));
    lemma_body_storable(body);
    lemma_put_storable(body.fields, path, ids, crate::json_text::DEEPEST - 1);
    lemma_fields_storable(after);
}

/// The fields of a body that can be stored can be stored.
proof fn lemma_body_storable(body: BodyView)
    requires
        storable(body_tree(body)),
    ensures
        printable(body.fields),
        nested_within(body.fields, crate::json_text::DEEPEST - 1),
{
    let members = body_tree(body)->Object_0;
    assert(members[0].1 == body.fields);
    assert(all_keys_distinct(members[0].1));
    assert(all_numbers_plain(members[0].1));
    assert(nested_within(members[0].1, crate::json_text::DEEPEST - 1));
}

/// A body whose fields can be stored can be stored.
proof fn lemma_fields_storable(body: BodyView)
    requires
        printable(body.fields),
        nested_within(body.fields, crate::json_text::DEEPEST - 1),
    ensures
        storable(body_tree(body)),
{
    let tree = body_tree(body);
    let members = tree->Object_0;
    assert forall|i: int| 0 <= i < members.len() implies all_keys_distinct(
        (#[trigger] members[i]).1,
    ) && all_numbers_plain(members[i].1) && nested_within(
        members[i].1,
        crate::json_text::DEEPEST - 1,
    ) by {
        assert(members[i].1 == body.fields);
    }
    assert(all_keys_distinct(tree));
    assert(all_numbers_plain(tree));
}

/// A child that was added is there; every other id is there as often as before; and the list is
/// in ascending order, if it was or if the child was new.
pub proof fn lemma_with_id(ids: Seq<u32>, id: u32)
    ensures
        with_id(ids, id).contains(id),
        forall|other: u32| other != id ==> (#[trigger] with_id(ids, id).contains(other)
            == ids.contains(other)),
        ascending(ids) || !ids.contains(id) ==> ascending(with_id(ids, id)),
        with_id(with_id(ids, id), id) == with_id(ids, id),
{
    if !ids.contains(id) {
        let longer = ids.push(id);
        lemma_sorted(longer);
        let r = sorted(longer);
        broadcast use vstd::seq_lib::group_to_multiset_ensures;

        assert(longer[longer.len() - 1] == id);
        assert(longer.contains(id));
        assert(longer.to_multiset().count(id) > 0);
        assert(r.to_multiset().count(id) > 0);
        assert(r.contains(id));
        assert forall|other: u32| other != id implies #[trigger] r.contains(other) == ids.contains(
            other,
        ) by {
            if ids.contains(other) {
                let k = choose|k: int| 0 <= k < ids.len() && ids[k] == other;
                assert(longer[k] == other);
                assert(longer.contains(other));
                assert(r.to_multiset().count(other) > 0);
            }
            if r.contains(other) {
                assert(r.to_multiset().count(other) > 0);
                assert(longer.contains(other));
                let k = choose|k: int| 0 <= k < longer.len() && longer[k] == other;
                assert(ids[k] == other);
            }
        }
    }
}

/// A child that was removed is gone, and every other id is there still.
pub proof fn lemma_without_id(ids: Seq<u32>, id: u32)
    ensures
        !without_id(ids, id).contains(id),
        forall|other: u32| other != id ==> (#[trigger] without_id(ids, id).contains(other)
            == ids.contains(other)),
        ascending(ids) ==> ascending(without_id(ids, id)),
        forall|k: int|
            0 <= k < without_id(ids, id).len() ==> ids.contains(#[trigger] without_id(ids, id)[k]),
    decreases ids.len(),
{
    if ids.len() > 0 {
        let shorter = ids.drop_last();
        lemma_without_id(shorter, id);
        let a = without_id(shorter, id);
        let r = without_id(ids, id);
        assert forall|other: u32| shorter.contains(other) implies ids.contains(other) by {
            let k = choose|k: int| 0 <= k < shorter.len() && shorter[k] == other;
            assert(ids[k] == other);
        }
        assert forall|other: u32| ids.contains(other) implies shorter.contains(other) || other
            == ids.last() by {
            let k = choose|k: int| 0 <= k < ids.len() && ids[k] == other;
            if k < shorter.len() {
                assert(shorter[k] == other);
            }
        }
        assert(ids[ids.len() - 1] == ids.last());
        assert(ids.contains(ids.last()));
        if ids.last() != id {
            assert forall|other: u32| #[trigger] r.contains(other) == (a.contains(other) || other
                == ids.last()) by {
                if a.contains(other) {
                    let k = choose|k: int| 0 <= k < a.len() && a[k] == other;
                    assert(r[k] == other);
                }
                if other == ids.last() {
                    assert(r[a.len() as int] == other);
                }
                if r.contains(other) {
                    let k = choose|k: int| 0 <= k < r.len() && r[k] == other;
                    if k < a.len() {
                        assert(a[k] == other);
                    }
                }
            }
            if ascending(ids) {
                assert(ascending(shorter));
                assert forall|i: int, j: int| 0 <= i <= j < r.len() implies r[i] <= r[j] by {
                    if i < a.len() {
                        assert(r[i] == a[i]);
                        assert(shorter.contains(a[i]));
                        let k = choose|k: int| 0 <= k < shorter.len() && shorter[k] == a[i];
                        assert(ids[k] <= ids[ids.len() - 1]);
                    }
                }
            }
            assert forall|k: int| 0 <= k < r.len() implies ids.contains(#[trigger] r[k]) by {
                if k < a.len() {
                    assert(r[k] == a[k]);
                    assert(shorter.contains(a[k]));
                }
            }
        } else {
            assert(ascending(ids) ==> ascending(shorter));
        }
    }
}

proof fn lemma_without_absent(ids: Seq<u32>, id: u32)
    requires
        !ids.contains(id),
    ensures
        without_id(ids, id) == ids,
    decreases ids.len(),
{
    if ids.len() > 0 {
        assert(ids[ids.len() - 1] != id);
        assert forall|k: int| 0 <= k < ids.len() - 1 implies ids.drop_last()[k] != id by {
            assert(ids[k] != id);
        }
        lemma_without_absent(ids.drop_last(), id);
        assert(ids.drop_last().push(ids.last()) =~= ids);
    }
}

proof fn lemma_without_multiset(ids: Seq<u32>, id: u32)
    ensures
        forall|x: u32| #[trigger] without_id(ids, id).to_multiset().count(x) == (if x == id {
            0
        } else {
            ids.to_multiset().count(x)
        }),
    decreases ids.len(),
{
    broadcast use vstd::seq_lib::group_to_multiset_ensures;

    if ids.len() > 0 {
        lemma_without_multiset(ids.drop_last(), id);
        let a = without_id(ids.drop_last(), id);
        assert(ids =~= ids.drop_last().push(ids.last()));
        assert(ids.to_multiset() == ids.drop_last().to_multiset().insert(ids.last()));
        assert(a.push(ids.last()).to_multiset() == a.to_multiset().insert(ids.last()));
    } else {
        assert(without_id(ids, id).to_multiset() == ids.to_multiset());
    }
}

/// Removing a child that was just added to an ascending list gives the list back.
pub proof fn lemma_add_then_remove(ids: Seq<u32>, id: u32)
    requires
        ascending(ids),
        !ids.contains(id),
    ensures
        without_id(with_id(ids, id), id) == ids,
{
    let longer = ids.push(id);
    lemma_sorted(longer);
    let r = with_id(ids, id);
    let back = without_id(r, id);
    lemma_without_id(r, id);
    lemma_without_multiset(r, id);
    lemma_without_multiset(longer, id);
    lemma_without_absent(ids, id);
    assert(longer.drop_last() =~= ids);
    assert(without_id(longer, id) == ids);
    assert(back.to_multiset() =~= ids.to_multiset());
    lemma_sorted_form_unique(back, ids, ids);
}

// ---------------------------------------------------------------------------
// Renumbering
// ---------------------------------------------------------------------------
proof fn lemma_renumbered_u32_at(v: JsonView, path: Seq<Seq<char>>, from: u32, to: u32)
    ensures
        u32_at(renumbered(v, from, to), path) == (match u32_at(v, path) {
            Some(id) => Some(renumbered_id(id, from, to)),
            None => None,
        }),
{
    lemma_renumbered_at(v, path, from, to);
}

proof fn lemma_renumbered_ids_at(v: JsonView, path: Seq<Seq<char>>, from: u32, to: u32)
    ensures
        ids_at(renumbered(v, from, to), path) == (match ids_at(v, path) {
            Some(ids) => Some(renumbered_ids(ids, from, to)),
            None => None,
        }),
{
    lemma_renumbered_at(v, path, from, to);
    if let Some(inner) = at(v, path) {
        lemma_renumbered_as_ids(inner, from, to);
    }
}

/// The elements of a list, renumbered.
pub open spec fn renumbered_items(items: Seq<JsonView>, from: u32, to: u32) -> Seq<JsonView> {
    items.map_values(|v: JsonView| renumbered(v, from, to))
}

proof fn lemma_renumbered_list_at(v: JsonView, path: Seq<Seq<char>>, from: u32, to: u32)
    ensures
        has_list(renumbered(v, from, to), path) == has_list(v, path),
        list_at(renumbered(v, from, to), path) == renumbered_items(list_at(v, path), from, to),
{
    lemma_renumbered_at(v, path, from, to);
    match at(v, path) {
        Some(JsonView::Array(items)) => {
            let out = renumbered(JsonView::Array(items), from, to)->Array_0;
            assert(out =~= renumbered_items(items, from, to));
        },
        _ => {
            assert(renumbered_items(Seq::empty(), from, to) =~= Seq::<JsonView>::empty());
        },
    }
}

proof fn lemma_renumbered_join(a: Seq<u32>, b: Seq<u32>, from: u32, to: u32)
    ensures
        renumbered_ids(a + b, from, to) == renumbered_ids(a, from, to) + renumbered_ids(
            b,
            from,
            to,
        ),
{
    assert(renumbered_ids(a + b, from, to) =~= renumbered_ids(a, from, to) + renumbered_ids(
        b,
        from,
        to,
    ));
}

proof fn lemma_renumbered_id_in_each(
    items: Seq<JsonView>,
    path: Seq<Seq<char>>,
    from: u32,
    to: u32,
)
    ensures
        id_in_each(renumbered_items(items, from, to), path) == renumbered_ids(
            id_in_each(items, path),
            from,
            to,
        ),
        each_has_id(renumbered_items(items, from, to), path) == each_has_id(items, path),
    decreases items.len(),
{
    let out = renumbered_items(items, from, to);
    assert forall|i: int| 0 <= i < items.len() implies (u32_at(#[trigger] out[i], path) is Some)
        == (u32_at(items[i], path) is Some) by {
        lemma_renumbered_u32_at(items[i], path, from, to);
    }
    if each_has_id(out, path) {
        assert forall|i: int| 0 <= i < items.len() implies u32_at(#[trigger] items[i], path) is Some by {
            assert(u32_at(out[i], path) is Some);
        }
    }
    if items.len() > 0 {
        lemma_renumbered_id_in_each(items.drop_last(), path, from, to);
        assert(out.drop_last() =~= renumbered_items(items.drop_last(), from, to));
        lemma_renumbered_u32_at(items.last(), path, from, to);
        lemma_renumbered_join(
            id_in_each(items.drop_last(), path),
            id_or_none(items.last(), path),
            from,
            to,
        );
        assert(id_or_none(out.last(), path) =~= renumbered_ids(
            id_or_none(items.last(), path),
            from,
            to,
        ));
    } else {
        assert(id_in_each(out, path) =~= renumbered_ids(id_in_each(items, path), from, to));
    }
}

proof fn lemma_renumbered_ids_in_each(
    items: Seq<JsonView>,
    path: Seq<Seq<char>>,
    from: u32,
    to: u32,
)
    ensures
        ids_in_each(renumbered_items(items, from, to), path) == renumbered_ids(
            ids_in_each(items, path),
            from,
            to,
        ),
        each_has_ids(renumbered_items(items, from, to), path) == each_has_ids(items, path),
    decreases items.len(),
{
    let out = renumbered_items(items, from, to);
    assert forall|i: int| 0 <= i < items.len() implies (ids_at(#[trigger] out[i], path) is Some)
        == (ids_at(items[i], path) is Some) by {
        lemma_renumbered_ids_at(items[i], path, from, to);
    }
    if each_has_ids(out, path) {
        assert forall|i: int| 0 <= i < items.len() implies ids_at(#[trigger] items[i], path) is Some by {
            assert(ids_at(out[i], path) is Some);
        }
    }
    if items.len() > 0 {
        lemma_renumbered_ids_in_each(items.drop_last(), path, from, to);
        assert(out.drop_last() =~= renumbered_items(items.drop_last(), from, to));
        lemma_renumbered_ids_at(items.last(), path, from, to);
        lemma_renumbered_join(
            ids_in_each(items.drop_last(), path),
            ids_or_none(items.last(), path),
            from,
            to,
        );
        assert(ids_or_none(out.last(), path) =~= renumbered_ids(
            ids_or_none(items.last(), path),
            from,
            to,
        ));
    } else {
        assert(ids_in_each(out, path) =~= renumbered_ids(ids_in_each(items, path), from, to));
    }
}

proof fn lemma_renumbered_layers(layers: Seq<JsonView>, from: u32, to: u32)
    ensures
        layer_children(renumbered_items(layers, from, to)) == renumbered_ids(
            layer_children(layers),
            from,
            to,
        ),
        each_layer_fits(renumbered_items(layers, from, to)) == each_layer_fits(layers),
    decreases layers.len(),
{
    let out = renumbered_items(layers, from, to);
    let list = seq!["associated_children"@];
    let id = seq!["associated_child_id"@];
    assert forall|i: int| 0 <= i < layers.len() implies has_list(#[trigger] out[i], list)
        == has_list(layers[i], list) && each_has_id(list_at(out[i], list), id) == each_has_id(
        list_at(layers[i], list),
        id,
    ) by {
        lemma_renumbered_list_at(layers[i], list, from, to);
        lemma_renumbered_id_in_each(list_at(layers[i], list), id, from, to);
    }
    if each_layer_fits(out) {
        assert forall|i: int| 0 <= i < layers.len() implies has_list(#[trigger] layers[i], list)
            && each_has_id(list_at(layers[i], list), id) by {
            assert(has_list(out[i], list));
        }
    }
    if layers.len() > 0 {
        lemma_renumbered_layers(layers.drop_last(), from, to);
        assert(out.drop_last() =~= renumbered_items(layers.drop_last(), from, to));
        lemma_renumbered_list_at(layers.last(), list, from, to);
        lemma_renumbered_id_in_each(list_at(layers.last(), list), id, from, to);
        lemma_renumbered_join(
            layer_children(layers.drop_last()),
            id_in_each(list_at(layers.last(), list), id),
            from,
            to,
        );
    } else {
        assert(layer_children(out) =~= renumbered_ids(layer_children(layers), from, to));
    }
}

/// Renumbering moves every reference, parent, bus and child from the old id to the new one, and
/// leaves the body complete. Zero means that there is no target, so of references this holds only
/// if neither id is zero.
pub proof fn lemma_renumbered_body(body: BodyView, from: u32, to: u32)
    ensures
        from != 0 && to != 0 ==> references(renumbered_body(body, from, to)) == renumbered_ids(
            references(body),
            from,
            to,
        ),
        direct_parent(renumbered_body(body, from, to)) == (match direct_parent(body) {
            Some(id) => Some(renumbered_id(id, from, to)),
            None => None,
        }),
        override_bus(renumbered_body(body, from, to)) == (match override_bus(body) {
            Some(id) => Some(renumbered_id(id, from, to)),
            None => None,
        }),
        children(renumbered_body(body, from, to)) == (match children(body) {
            Some(ids) => Some(renumbered_ids(ids, from, to)),
            None => None,
        }),
        well_formed(body) ==> well_formed(renumbered_body(body, from, to)),
{
    let after = renumbered_body(body, from, to);
    let v = body.fields;
    if let Some(path) = parent_path(body.kind) {
        lemma_renumbered_u32_at(v, path, from, to);
    }
    if let Some(path) = bus_path(body.kind) {
        lemma_renumbered_u32_at(v, path, from, to);
    }
    let none = Seq::<u32>::empty();
    assert(renumbered_ids(none, from, to) =~= none);
    let before_children = match children_path(body.kind) {
        Some(path) => ids_or_none(v, path),
        None => none,
    };
    if let Some(path) = children_path(body.kind) {
        lemma_renumbered_ids_at(v, path, from, to);
    }
    match body.kind {
        BodyKind::Event => {
            lemma_renumbered_ids_at(v, seq!["actions"@], from, to);
        },
        BodyKind::Action => {
            let path = seq!["external_id"@];
            lemma_renumbered_u32_at(v, path, from, to);
            reveal_with_fuel(nonzero, 2);
            if u32_at(v, path) is Some && from != 0 && to != 0 {
                let id = u32_at(v, path).unwrap();
                let one = seq![id];
                assert(one.drop_last() =~= none);
                let other = seq![renumbered_id(id, from, to)];
                assert(other.drop_last() =~= none);
                assert(none.push(id) =~= one);
                assert(none.push(renumbered_id(id, from, to)) =~= other);
                assert(renumbered_ids(one, from, to) =~= other);
            }
        },
        BodyKind::SwitchContainer => {
            let list = seq!["switch_groups"@];
            lemma_renumbered_list_at(v, list, from, to);
            lemma_renumbered_ids_in_each(list_at(v, list), seq!["nodes"@], from, to);
            lemma_renumbered_join(
                before_children,
                ids_in_each(list_at(v, list), seq!["nodes"@]),
                from,
                to,
            );
        },
        BodyKind::LayerContainer => {
            let list = seq!["layers"@];
            lemma_renumbered_list_at(v, list, from, to);
            lemma_renumbered_layers(list_at(v, list), from, to);
            lemma_renumbered_join(before_children, layer_children(list_at(v, list)), from, to);
        },
        BodyKind::Sound => {
            lemma_renumbered_u32_at(
                v,
                seq!["bank_source_data"@, "media_information"@, "source_id"@],
                from,
                to,
            );
        },
        BodyKind::MusicTrack => {
            let list = seq!["sources"@];
            lemma_renumbered_list_at(v, list, from, to);
            lemma_renumbered_id_in_each(
                list_at(v, list),
                seq!["media_information"@, "source_id"@],
                from,
                to,
            );
        },
        _ => {},
    }
    if well_formed(body) {
        lemma_body_storable(body);
        lemma_renumbered_printable(v, from, to);
        lemma_renumbered_nesting(v, from, to, crate::json_text::DEEPEST - 1);
        lemma_fields_storable(after);
        assert(fields_fit(after));
    }
}

} // verus!
