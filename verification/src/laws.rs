//! What holds of the library as a whole.
use crate::backend::CodegenBackend;
use crate::codegen::{
    CodegenItem, CodegenKind, direct_written_at, item_written, lemma_direct_written_deeper,
    stream_states, with_head,
};
use crate::context::{ContextView, NodeView};
use crate::modules::{
    Emission, ModGroupView, all_checked, emit_ok, gathered, grouping, items_written,
    lemma_emit_ok_after_all, lemma_filter_from, lemma_gathered, mod_emitted, stem, stem_len,
};
use crate::pkgs::{PkgNode, write_out};
use crate::render::{
    attrs_text, const_text, const_variant_text, discr_value, enum_ok, enum_text, field_text,
    fields_text, nested_text, new_type_text, re_pub_text, repr_c_text, struct_ok, struct_text,
    variant_text,
};
use crate::rir::{
    ConstView, DefId, EnumView, FieldView, ItemView, MessageView, MethodView, NewTypeView,
    ServiceView, TyView,
};
use crate::scalar::{
    Record, checked, field_slot, marked_item, marked_node, ready, ready_at, record_after,
    scalar_value, slots, visits,
};
use crate::scalar_lemmas::{
    lemma_checked_frame, lemma_depth, lemma_marked_slots_set, lemma_visited, lemma_visits,
};
use crate::text::{Text, in_order, lemma_text_order_total, text_order, texts};
use crate::text_laws::stands_in;
use vstd::prelude::*;

verus! {

/// A check of an item that is in the record gives what the record says, and
/// changes nothing.
pub proof fn law_check_recorded(cx: ContextView, rec: Record, d: DefId)
    requires
        rec.contains_key(d),
    ensures
        ready(cx, rec, d),
        scalar_value(cx, rec, d) == rec[d],
        checked(cx, rec, d) == cx,
        record_after(cx, rec, d) == rec,
{
    assert(ready_at(cx, rec, d, 0));
    assert(checked(cx, rec, d).nodes =~= cx.nodes);
    assert(record_after(cx, rec, d) =~= rec);
}

/// A second check of an item, with the record that the first left, can be made,
/// gives the same answer and changes nothing.
pub proof fn law_check_again(cx: ContextView, rec: Record, d: DefId)
    requires
        ready(cx, rec, d),
    ensures
        ({
            let cx1 = checked(cx, rec, d);
            let rec1 = record_after(cx, rec, d);
            &&& ready(cx1, rec1, d)
            &&& scalar_value(cx1, rec1, d) == scalar_value(cx, rec, d)
            &&& checked(cx1, rec1, d) == cx1
            &&& record_after(cx1, rec1, d) == rec1
        }),
{
    let cx1 = checked(cx, rec, d);
    let rec1 = record_after(cx, rec, d);
    lemma_visits(cx, rec, d, d);
    if rec1.contains_key(d) {
        law_check_recorded(cx1, rec1, d);
    } else {
        lemma_depth(cx, rec, d);
        lemma_checked_frame(cx, rec, d, d);
        assert(ready_at(cx1, rec1, d, 1));
        assert forall|e: DefId| #[trigger] visits(cx1, rec1, d, e) == (e == d) by {
            lemma_visits(cx1, rec1, d, e);
        }
        assert(marked_node(cx1, rec1, d) =~= cx1.nodes[d as int]);
        assert(checked(cx1, rec1, d).nodes =~= cx1.nodes);
        assert(record_after(cx1, rec1, d) =~= rec1);
    }
}

/// A type without its mark.
pub open spec fn unmarked_ty(ty: TyView) -> TyView {
    TyView { in_stack: None, ..ty }
}

/// A method without its marks.
pub open spec fn unmarked_method(m: MethodView) -> MethodView {
    MethodView {
        args: Seq::new(m.args.len(), |i: int| unmarked_ty(m.args[i])),
        ret: unmarked_ty(m.ret),
        ..m
    }
}

/// An item without its marks.
pub open spec fn unmarked(item: ItemView) -> ItemView {
    match item {
        ItemView::Message(m) => ItemView::Message(
            MessageView {
                fields: Seq::new(
                    m.fields.len(),
                    |i: int| FieldView { ty: unmarked_ty(m.fields[i].ty), ..m.fields[i] },
                ),
                all_in_stack: None,
            },
        ),
        ItemView::Service(s) => ItemView::Service(
            ServiceView {
                methods: Seq::new(s.methods.len(), |i: int| unmarked_method(s.methods[i])),
            },
        ),
        other => other,
    }
}

/// A check changes nothing but the items that it visits, and there nothing but
/// marks: names, paths, adjustments and tags stay, and so does what the items
/// are made of.
pub proof fn law_check_keeps_the_rest(cx: ContextView, rec: Record, d: DefId, e: DefId)
    requires
        ready(cx, rec, d),
    ensures
        ({
            let cx1 = checked(cx, rec, d);
            &&& cx1 == ContextView { nodes: cx1.nodes, ..cx }
            &&& cx1.nodes.len() == cx.nodes.len()
            &&& cx.knows(e) ==> cx1.nodes[e as int] == NodeView {
                item: cx1.nodes[e as int].item,
                ..cx.nodes[e as int]
            }
            &&& !visits(cx, rec, d, e) ==> cx1.item(e) == cx.item(e)
            &&& cx1.item(e) is Some <==> cx.item(e) is Some
            &&& cx.item(e) is Some ==> unmarked(cx1.item(e)->0) == unmarked(cx.item(e)->0)
        }),
{
    lemma_checked_frame(cx, rec, d, e);
    if visits(cx, rec, d, e) {
        lemma_visited(cx, rec, d, e);
        let before = unmarked(cx.item(e)->0);
        let after = unmarked(checked(cx, rec, d).item(e)->0);
        match cx.item(e)->0 {
            ItemView::Message(m) => {
                assert(after->Message_0.fields =~= before->Message_0.fields);
            },
            ItemView::Service(s) => {
                assert forall|i: int| 0 <= i < s.methods.len() implies after->Service_0.methods[i]
                    == before->Service_0.methods[i] by {
                    assert(after->Service_0.methods[i].args =~= before->Service_0.methods[i].args);
                }
                assert(after->Service_0.methods =~= before->Service_0.methods);
            },
            _ => {},
        }
    }
}

/// Once an item has been visited all its places are marked, so that a further
/// check of it leads to no other item.
pub proof fn law_visited_is_marked(cx: ContextView, rec: Record, d: DefId, e: DefId)
    requires
        ready(cx, rec, d),
        visits(cx, rec, d, e),
    ensures
        ({
            let cx1 = checked(cx, rec, d);
            &&& forall|i: int|
                0 <= i < slots(cx1, e).len() ==> (#[trigger] slots(cx1, e)[i]).ty.in_stack is Some
            &&& forall|x: DefId| #[trigger] visits(cx1, Map::empty(), e, x) ==> x == e
        }),
{
    let cx1 = checked(cx, rec, d);
    lemma_visited(cx, rec, d, e);
    lemma_checked_frame(cx, rec, d, e);
    lemma_marked_slots_set(cx, rec, d, e);
    assert(ready_at(cx1, Map::empty(), e, 1));
    assert forall|x: DefId| #[trigger] visits(cx1, Map::empty(), e, x) implies x == e by {
        lemma_visits(cx1, Map::empty(), e, x);
    }
}

/// Once a message has been visited its fields that are held by pointer are marked
/// as off the stack, and the others that were marked before as they were.
pub proof fn law_field_marks(cx: ContextView, rec: Record, d: DefId, e: DefId, i: int)
    requires
        ready(cx, rec, d),
        visits(cx, rec, d, e),
        cx.item(e) matches Some(ItemView::Message(m)) && 0 <= i < m.fields.len(),
    ensures
        ({
            let before = cx.item(e)->0->Message_0.fields[i];
            let after = checked(cx, rec, d).item(e)->0->Message_0.fields[i];
            &&& after.ty.in_stack is Some
            &&& field_slot(cx, before).by_ptr ==> after.ty.in_stack == Some(false)
            &&& !field_slot(cx, before).by_ptr && before.ty.in_stack is Some ==> after.ty.in_stack
                == before.ty.in_stack
        }),
{
    lemma_checked_frame(cx, rec, d, e);
}

/// The answer of a check of a message is the one that the message and the record
/// are left with.
pub proof fn law_answer_is_kept(cx: ContextView, rec: Record, d: DefId)
    requires
        ready(cx, rec, d),
        !rec.contains_key(d),
        cx.item(d) matches Some(ItemView::Message(_)),
    ensures
        checked(cx, rec, d).item(d) matches Some(ItemView::Message(m)) && m.all_in_stack == Some(
            scalar_value(cx, rec, d),
        ),
        record_after(cx, rec, d).contains_key(d),
        record_after(cx, rec, d)[d] == scalar_value(cx, rec, d),
{
    lemma_visits(cx, rec, d, d);
    lemma_checked_frame(cx, rec, d, d);
}

/// A message with a field that may be absent, or that is boxed, is found not to
/// lie on the stack, and is written without `#[repr(C)]` from then on.
pub proof fn law_pointer_field_rules_out_repr_c(
    cx: ContextView,
    rec: Record,
    d: DefId,
    i: int,
)
    requires
        ready(cx, rec, d),
        !rec.contains_key(d),
        cx.item(d) matches Some(ItemView::Message(m)) && 0 <= i < m.fields.len() && (
        m.fields[i].kind is Optional || cx.boxed(m.fields[i].did)),
    ensures
        !scalar_value(cx, rec, d),
        repr_c_text(checked(cx, rec, d).item(d)->0->Message_0) == ""@,
{
    assert(slots(cx, d)[i].by_ptr);
    law_answer_is_kept(cx, rec, d);
}

/// A message is written with `#[repr(C)]` after a check if and only if the check
/// found that it lies on the stack.
pub proof fn law_repr_c_follows_the_answer(cx: ContextView, rec: Record, d: DefId)
    requires
        ready(cx, rec, d),
        !rec.contains_key(d),
        cx.item(d) matches Some(ItemView::Message(_)),
    ensures
        ({
            let m = checked(cx, rec, d).item(d)->0->Message_0;
            repr_c_text(m) == if scalar_value(cx, rec, d) {
                "#[repr(C)]"@
            } else {
                ""@
            }
        }),
{
    law_answer_is_kept(cx, rec, d);
}

/// A message that was once found not to lie on the stack is always found so.
pub proof fn law_off_stack_is_final(cx: ContextView, rec: Record, d: DefId)
    requires
        ready(cx, rec, d),
        !rec.contains_key(d),
        cx.item(d) matches Some(ItemView::Message(m)) && m.all_in_stack == Some(false),
    ensures
        !scalar_value(cx, rec, d),
        checked(cx, rec, d).item(d) matches Some(ItemView::Message(m)) && m.all_in_stack == Some(
            false,
        ),
{
    law_answer_is_kept(cx, rec, d);
}

/// A check from scratch of a message that has been checked before takes the
/// marks of all fields into account, those too that the first check set; and a
/// third finds what the second found, and changes nothing.
pub proof fn law_second_check_sees_all_marks(cx: ContextView, d: DefId)
    requires
        ready(cx, Map::empty(), d),
        cx.item(d) matches Some(ItemView::Message(_)),
    ensures
        ({
            let cx1 = checked(cx, Map::empty(), d);
            let cx2 = checked(cx1, Map::empty(), d);
            let m1 = cx1.item(d)->0->Message_0;
            &&& ready(cx1, Map::empty(), d)
            &&& scalar_value(cx1, Map::empty(), d) == (scalar_value(cx, Map::empty(), d)
                && forall|i: int|
                0 <= i < m1.fields.len() ==> (#[trigger] m1.fields[i]).ty.in_stack == Some(true))
            &&& ready(cx2, Map::empty(), d)
            &&& scalar_value(cx2, Map::empty(), d) == scalar_value(cx1, Map::empty(), d)
            &&& checked(cx2, Map::empty(), d) == cx2
        }),
{
    let rec: Record = Map::empty();
    let m = cx.item(d)->0->Message_0;
    let cx1 = checked(cx, rec, d);
    let m1 = cx1.item(d)->0->Message_0;
    lemma_visits(cx, rec, d, d);
    law_answer_is_kept(cx, rec, d);
    lemma_checked_frame(cx, rec, d, d);
    lemma_marked_slots_set(cx, rec, d, d);
    assert(ready_at(cx1, rec, d, 1));
    assert forall|i: int| 0 <= i < m.fields.len() implies (#[trigger] slots(cx1, d)[i]).by_ptr
        == slots(cx, d)[i].by_ptr && slots(cx1, d)[i].ty == m1.fields[i].ty && (slots(
        cx,
        d,
    )[i].by_ptr ==> m1.fields[i].ty.in_stack == Some(false)) && m1.fields[i].ty.in_stack is Some by {
        lemma_checked_frame(cx, rec, d, m.fields[i].did);
    }
    let all_true = forall|i: int|
        0 <= i < m1.fields.len() ==> (#[trigger] m1.fields[i]).ty.in_stack == Some(true);
    if scalar_value(cx1, rec, d) {
        assert forall|i: int| 0 <= i < m1.fields.len() implies (
        #[trigger] m1.fields[i]).ty.in_stack == Some(true) by {
            assert(slots(cx1, d)[i].ty.in_stack != Some(false));
        }
    }
    if scalar_value(cx, rec, d) && all_true {
        assert forall|i: int| 0 <= i < slots(cx1, d).len() implies !(
        #[trigger] slots(cx1, d)[i]).by_ptr && slots(cx1, d)[i].ty.in_stack != Some(false) by {
            assert(m1.fields[i].ty.in_stack == Some(true));
        }
    }
    lemma_marked_message_is_settled(cx1, d);
}

proof fn lemma_marked_message_is_settled(cx: ContextView, d: DefId)
    requires
        ready(cx, Map::empty(), d),
        cx.item(d) matches Some(ItemView::Message(_)),
        forall|i: int| 0 <= i < slots(cx, d).len() ==> (#[trigger] slots(cx, d)[i]).ty.in_stack is Some,
        forall|i: int|
            0 <= i < slots(cx, d).len() && (#[trigger] slots(cx, d)[i]).by_ptr ==> slots(cx, d)[i].ty.in_stack
                == Some(false),
    ensures
        ({
            let cx2 = checked(cx, Map::empty(), d);
            &&& ready(cx2, Map::empty(), d)
            &&& scalar_value(cx2, Map::empty(), d) == scalar_value(cx, Map::empty(), d)
            &&& checked(cx2, Map::empty(), d) == cx2
        }),
{
    let rec: Record = Map::empty();
    let cx2 = checked(cx, rec, d);
    let m = cx.item(d)->0->Message_0;
    assert forall|e: DefId| #[trigger] visits(cx, rec, d, e) == (e == d) by {
        lemma_visits(cx, rec, d, e);
    }
    lemma_checked_frame(cx, rec, d, d);
    let m2 = cx2.item(d)->0->Message_0;
    assert(m2.fields =~= m.fields) by {
        assert forall|i: int| 0 <= i < m.fields.len() implies m2.fields[i] == m.fields[i] by {
            assert(slots(cx, d)[i] == field_slot(cx, m.fields[i]));
        }
    }
    assert(slots(cx2, d) =~= slots(cx, d)) by {
        assert forall|i: int| 0 <= i < m.fields.len() implies slots(cx2, d)[i] == slots(cx, d)[i] by {
            lemma_checked_frame(cx, rec, d, m.fields[i].did);
        }
    }
    assert(ready_at(cx2, rec, d, 1));
    assert forall|e: DefId| #[trigger] visits(cx2, rec, d, e) == (e == d) by {
        lemma_visits(cx2, rec, d, e);
    }
    if scalar_value(cx, rec, d) {
        assert forall|i: int| 0 <= i < slots(cx2, d).len() implies !(
        #[trigger] slots(cx2, d)[i]).by_ptr && slots(cx2, d)[i].ty.in_stack != Some(false) by {
            assert(slots(cx, d)[i] == slots(cx2, d)[i]);
        }
    }
    assert(marked_node(cx2, rec, d) =~= cx2.nodes[d as int]) by {
        let m3 = marked_item(cx2, rec, d)->Message_0;
        assert(m3.fields =~= m2.fields) by {
            assert forall|i: int| 0 <= i < m2.fields.len() implies m3.fields[i] == m2.fields[i] by {
                assert(slots(cx2, d)[i] == field_slot(cx2, m2.fields[i]));
            }
        }
    }
    assert(checked(cx2, rec, d).nodes =~= cx2.nodes);
}

/// What could be checked and written still can once other items have been
/// checked.
pub proof fn law_checks_spoil_nothing(
    cx: ContextView,
    items: Seq<CodegenItem>,
    item: CodegenItem,
)
    requires
        forall|i: int| 0 <= i < items.len() ==> emit_ok(cx, #[trigger] items[i]),
        emit_ok(cx, item),
    ensures
        emit_ok(all_checked(cx, items), item),
{
    lemma_emit_ok_after_all(cx, items, item);
}

/// The text of a definition does not depend on which checks have been made,
/// except that a struct shows what was found of it.
pub proof fn law_texts_outlast_checks(cx: ContextView, rec: Record, d: DefId, e: DefId)
    requires
        ready(cx, rec, d),
        cx.knows(e),
    ensures
        nested_text(checked(cx, rec, d), e) == nested_text(cx, e),
        forall|sep: Text| #[trigger]
            attrs_text(checked(cx, rec, d), e, sep) == attrs_text(cx, e, sep),
        re_pub_text(checked(cx, rec, d), e) == re_pub_text(cx, e),
        forall|t: NewTypeView| #[trigger]
            new_type_text(checked(cx, rec, d), e, t) == new_type_text(cx, e, t),
        forall|c: ConstView| #[trigger]
            const_text(checked(cx, rec, d), e, c) == const_text(cx, e, c),
        cx.item(e) matches Some(ItemView::Message(m)) ==> {
            let m1 = checked(cx, rec, d).item(e)->0->Message_0;
            struct_ok(cx, e, m) ==> struct_text(checked(cx, rec, d), e, m1)
                == repr_c_text(m1) + "\n            #[derive(Clone, PartialEq)]\n            pub struct "@
                + cx.rust_name(e) + " {\n                "@ + fields_text(cx, m)
                + "\n            }"@
        },
        forall|en: EnumView|
            enum_ok(cx, e, en) ==> #[trigger] enum_text(checked(cx, rec, d), e, en) == enum_text(
                cx,
                e,
                en,
            ),
{
    let cx1 = checked(cx, rec, d);
    lemma_checked_frame(cx, rec, d, e);
    assert forall|en: EnumView| enum_ok(cx, e, en) implies #[trigger] enum_text(cx1, e, en)
        == enum_text(cx, e, en) by {
        assert forall|i: int| 0 <= i < en.variants.len() implies variant_text(
            cx1,
            #[trigger] en.variants[i],
        ) == variant_text(cx, en.variants[i]) && const_variant_text(cx1, en.variants[i])
            == const_variant_text(cx, en.variants[i]) by {
            assert(cx.knows(en.variants[i].did));
            lemma_checked_frame(cx, rec, d, en.variants[i].did);
        }
        assert(Seq::new(en.variants.len(), |i: int| variant_text(cx1, en.variants[i]))
            =~= Seq::new(en.variants.len(), |i: int| variant_text(cx, en.variants[i])));
        assert(Seq::new(en.variants.len(), |i: int| const_variant_text(cx1, en.variants[i]))
            =~= Seq::new(en.variants.len(), |i: int| const_variant_text(cx, en.variants[i])));
    }
    if let Some(ItemView::Message(m)) = cx.item(e) {
        let m1 = cx1.item(e)->0->Message_0;
        if struct_ok(cx, e, m) {
            assert forall|i: int| 0 <= i < m.fields.len() implies field_text(cx1, m1.fields[i])
                == field_text(cx, m.fields[i]) by {
                assert(cx.knows(m.fields[i].did));
                lemma_checked_frame(cx, rec, d, m.fields[i].did);
            }
            assert(Seq::new(m1.fields.len(), |i: int| field_text(cx1, m1.fields[i])) =~= Seq::new(
                m.fields.len(),
                |i: int| field_text(cx, m.fields[i]),
            ));
        }
    }
}

/// The items that an adjustment puts in front of a definition come out the same
/// in whatever order it holds them.
pub proof fn law_nested_items_have_no_order(a: Seq<Text>, b: Seq<Text>)
    requires
        a.to_multiset() == b.to_multiset(),
    ensures
        in_order(a) == in_order(b),
{
    lemma_text_order_total();
    a.lemma_sort_by_ensures(text_order());
    b.lemma_sort_by_ensures(text_order());
    vstd::seq_lib::lemma_sorted_unique(in_order(a), in_order(b), text_order());
}

/// Every item is in just one group, that of its module.
pub proof fn law_each_item_in_one_group(
    cx: ContextView,
    items: Seq<CodegenItem>,
    groups: Seq<ModGroupView>,
    k: int,
    i: int,
)
    requires
        grouping(cx, items, groups),
        0 <= k < items.len(),
        0 <= i < groups.len(),
    ensures
        exists|j: int|
            0 <= j < groups.len() && (#[trigger] groups[j]).items.contains(items[k]),
        groups[i].items.contains(items[k]) <==> groups[i].path == cx.mod_key(items[k].def_id),
{
    assert forall|j: int| 0 <= j < groups.len() implies ((#[trigger] groups[j]).items.contains(
        items[k],
    ) <==> groups[j].path == cx.mod_key(items[k].def_id)) by {
        let kept = |item: CodegenItem| cx.mod_key(item.def_id) == groups[j].path;
        assert(groups[j].items == items.filter(kept));
        if groups[j].items.contains(items[k]) {
            let n = groups[j].items.index_of(items[k]);
            lemma_filter_from(items, kept, n);
        }
        if groups[j].path == cx.mod_key(items[k].def_id) {
            assert(kept(items[k]));
            items.lemma_filter_contains(kept, k);
        }
    }
    let j = choose|j: int|
        0 <= j < groups.len() && (#[trigger] groups[j]).path == cx.mod_key(items[k].def_id);
    assert(groups[j].items.contains(items[k]));
}

/// The groups of items are settled but for their order: where two groupings of
/// the same items have a module in common, they have the same items for it, and
/// no module is in one of them only.
pub proof fn law_groups_differ_in_order_only(
    cx: ContextView,
    items: Seq<CodegenItem>,
    a: Seq<ModGroupView>,
    b: Seq<ModGroupView>,
    i: int,
)
    requires
        grouping(cx, items, a),
        grouping(cx, items, b),
        0 <= i < a.len(),
    ensures
        exists|j: int|
            0 <= j < b.len() && (#[trigger] b[j]).path == a[i].path && b[j].items == a[i].items,
{
    let kept = |item: CodegenItem| cx.mod_key(item.def_id) == a[i].path;
    assert(a[i].items == items.filter(kept));
    lemma_filter_from(items, kept, 0);
    let k = choose|k: int| 0 <= k < items.len() && #[trigger] items[k] == items.filter(kept)[0];
    let j = choose|j: int|
        0 <= j < b.len() && (#[trigger] b[j]).path == cx.mod_key(items[k].def_id);
    assert(b[j].path == a[i].path && b[j].items == a[i].items);
}

/// A discriminant that fits 32 bits is written as it is; any other is written as
/// the one number of 32 bits that differs from it by a multiple of 2^32.
pub proof fn law_discr_value(discr: i64)
    ensures
        i32::MIN <= discr_value(discr) <= i32::MAX,
        (discr - discr_value(discr)) % 0x1_0000_0000 == 0,
        i32::MIN <= discr <= i32::MAX ==> discr_value(discr) == discr,
{
}

proof fn lemma_stem_len(name: Text)
    ensures
        stem_len(name) <= name.len(),
    decreases name.len(),
{
    if name.len() > 0 {
        lemma_stem_len(name.drop_first());
    }
}

/// The namespace is what stands in front of the first full stop of the file name.
pub proof fn law_stem(name: Text)
    ensures
        stem(name).is_prefix_of(name),
        !stem(name).contains('.'),
        stem(name).len() < name.len() ==> name[stem(name).len() as int] == '.',
    decreases name.len(),
{
    if name.len() > 0 && name[0] != '.' {
        let rest = name.drop_first();
        law_stem(rest);
        lemma_stem_len(rest);
        assert(stem(name) =~= seq![name[0]] + stem(rest));
        assert forall|i: int| 0 <= i < stem(name).len() implies stem(name)[i] != '.' by {
            if i > 0 {
                assert(stem(rest)[i - 1] == stem(name)[i]);
                assert(stem(rest).contains(stem(rest)[i - 1]));
            }
        }
    }
}

/// To write some items and then others is to write them all.
pub proof fn law_items_written_in_turn<B: CodegenBackend>(
    b: B,
    first: Seq<CodegenItem>,
    second: Seq<CodegenItem>,
    before: Text,
    between: Text,
    after: Text,
)
    requires
        items_written(b, first, before, between),
        items_written(b, second, between, after),
    ensures
        items_written(b, first + second, before, after),
{
    let s1 = choose|states: Seq<Text>| #[trigger]
        stream_states(states, before, first.len()) && states.last() == between && forall|i: int|
            0 <= i < first.len() ==> item_written(
                b,
                #[trigger] first[i],
                states[i],
                states[i + 1],
            );
    let s2 = choose|states: Seq<Text>| #[trigger]
        stream_states(states, between, second.len()) && states.last() == after && forall|i: int|
            0 <= i < second.len() ==> item_written(
                b,
                #[trigger] second[i],
                states[i],
                states[i + 1],
            );
    let states = s1 + s2.drop_first();
    let items = first + second;
    assert(stream_states(states, before, items.len()));
    assert(states.last() == after);
    assert forall|i: int| 0 <= i < items.len() implies item_written(
        b,
        #[trigger] items[i],
        states[i],
        states[i + 1],
    ) by {
        if i < first.len() {
            assert(items[i] == first[i]);
        } else {
            let j = i - first.len();
            assert(items[i] == second[j]);
            assert(states[i] == s2[j] && states[i + 1] == s2[j + 1]);
        }
    }
}

/// Whether the hooks of a backend leave what the stream holds in place, and only
/// add to its end.
pub open spec fn only_appends<B: CodegenBackend>(b: B) -> bool {
    &&& forall|cur: Option<DefId>, did: DefId, s: MessageView, before: Text, after: Text| #[trigger]
        b.struct_impl(cur, did, s, before, after) ==> before.is_prefix_of(after)
    &&& forall|cur: Option<DefId>, did: DefId, e: EnumView, before: Text, after: Text| #[trigger]
        b.enum_impl(cur, did, e, before, after) ==> before.is_prefix_of(after)
    &&& forall|cur: Option<DefId>, did: DefId, s: ServiceView, before: Text, after: Text| #[trigger]
        b.service_impl(cur, did, s, before, after) ==> before.is_prefix_of(after)
    &&& forall|cur: Option<DefId>, did: DefId, t: NewTypeView, before: Text, after: Text| #[trigger]
        b.newtype_impl(cur, did, t, before, after) ==> before.is_prefix_of(after)
}

/// Where the hooks only add to the end of the stream, so does writing an item.
pub proof fn law_item_appends<B: CodegenBackend>(
    b: B,
    item: CodegenItem,
    before: Text,
    after: Text,
)
    requires
        only_appends(b),
        item_written(b, item, before, after),
    ensures
        before.is_prefix_of(after),
{
    match item.kind {
        CodegenKind::Direct => {
            let fuel = choose|fuel: nat| #[trigger]
                direct_written_at(b, item.def_id, before, after, fuel);
            let head = with_head(b.context(), item.def_id, before);
            assert(before.is_prefix_of(head));
            assert(head.is_prefix_of(after));
        },
        CodegenKind::RePub => {},
    }
}

/// Where the hooks only add to the end of the stream, so does writing many items.
pub proof fn law_items_append<B: CodegenBackend>(
    b: B,
    items: Seq<CodegenItem>,
    before: Text,
    after: Text,
)
    requires
        only_appends(b),
        items_written(b, items, before, after),
    ensures
        before.is_prefix_of(after),
{
    let states = choose|states: Seq<Text>| #[trigger]
        stream_states(states, before, items.len()) && states.last() == after && forall|i: int|
            0 <= i < items.len() ==> item_written(
                b,
                #[trigger] items[i],
                states[i],
                states[i + 1],
            );
    lemma_states_grow(b, items, states, items.len());
}

proof fn lemma_states_grow<B: CodegenBackend>(
    b: B,
    items: Seq<CodegenItem>,
    states: Seq<Text>,
    n: nat,
)
    requires
        only_appends(b),
        states.len() == items.len() + 1,
        forall|i: int|
            0 <= i < items.len() ==> item_written(
                b,
                #[trigger] items[i],
                states[i],
                states[i + 1],
            ),
        n <= items.len(),
    ensures
        states[0].is_prefix_of(states[n as int]),
    decreases n,
{
    if n > 0 {
        lemma_states_grow(b, items, states, (n - 1) as nat);
        law_item_appends(b, items[n - 1], states[n - 1], states[n as int]);
    }
}

/// The items of a module as they are written.
pub open spec fn direct_items(ids: Seq<DefId>) -> Seq<CodegenItem> {
    Seq::new(ids.len(), |i: int| CodegenItem { def_id: ids[i], kind: CodegenKind::Direct })
}

/// To write a module is to write what stands in front of it, and then the items
/// that it holds, one after the other, with nothing between or around them.
pub proof fn law_module_is_its_items<B: CodegenBackend>(
    b: B,
    did: DefId,
    before: Text,
    inner: Text,
)
    requires
        b.context().item(did) matches Some(ItemView::Mod(_)),
    ensures
        item_written(
            b,
            CodegenItem { def_id: did, kind: CodegenKind::Direct },
            before,
            with_head(b.context(), did, before) + inner,
        ) <==> items_written(
            b,
            direct_items(b.context().item(did)->0->Mod_0.items),
            Seq::empty(),
            inner,
        ),
{
    let ids = b.context().item(did)->0->Mod_0.items;
    let items = direct_items(ids);
    let head = with_head(b.context(), did, before);
    let whole = CodegenItem { def_id: did, kind: CodegenKind::Direct };
    if item_written(b, whole, before, head + inner) {
        let fuel = choose|fuel: nat| #[trigger]
            direct_written_at(b, did, before, head + inner, fuel);
        let states = choose|states: Seq<Text>| #[trigger]
            stream_states(states, Seq::empty(), ids.len()) && head + inner == head + states.last()
                && forall|i: int|
                0 <= i < ids.len() ==> direct_written_at(
                    b,
                    #[trigger] ids[i],
                    states[i],
                    states[i + 1],
                    (fuel - 1) as nat,
                );
        assert(inner =~= (head + inner).skip(head.len() as int));
        assert(states.last() =~= (head + states.last()).skip(head.len() as int));
        assert(states.last() == inner);
        assert(stream_states(states, Seq::empty(), items.len()));
        assert forall|i: int| 0 <= i < items.len() implies item_written(
            b,
            #[trigger] items[i],
            states[i],
            states[i + 1],
        ) by {
            assert(items[i].def_id == ids[i]);
            assert(direct_written_at(b, ids[i], states[i], states[i + 1], (fuel - 1) as nat));
        }
        assert(items_written(b, items, Seq::empty(), inner));
    }
    if items_written(b, items, Seq::empty(), inner) {
        let states = choose|states: Seq<Text>| #[trigger]
            stream_states(states, Seq::empty(), items.len()) && states.last() == inner
                && forall|i: int|
                0 <= i < items.len() ==> item_written(
                    b,
                    #[trigger] items[i],
                    states[i],
                    states[i + 1],
                );
        let fuel = lemma_common_fuel(b, ids, states, ids.len());
        assert(stream_states(states, Seq::empty(), ids.len()));
        let n: nat = fuel + 1;
        assert((n - 1) as nat == fuel);
        assert(direct_written_at(b, whole.def_id, before, head + inner, n));
    }
}

proof fn lemma_common_fuel<B: CodegenBackend>(
    b: B,
    ids: Seq<DefId>,
    states: Seq<Text>,
    n: nat,
) -> (fuel: nat)
    requires
        states.len() == ids.len() + 1,
        n <= ids.len(),
        forall|i: int|
            0 <= i < ids.len() ==> item_written(
                b,
                #[trigger] direct_items(ids)[i],
                states[i],
                states[i + 1],
            ),
    ensures
        forall|i: int|
            0 <= i < n ==> direct_written_at(
                b,
                #[trigger] ids[i],
                states[i],
                states[i + 1],
                fuel,
            ),
    decreases n,
{
    if n == 0 {
        0
    } else {
        let last = n - 1;
        let f = lemma_common_fuel(b, ids, states, last as nat);
        assert(item_written(b, direct_items(ids)[last], states[last], states[last + 1]));
        let g = choose|g: nat| #[trigger]
            direct_written_at(b, ids[last], states[last], states[last + 1], g);
        assert forall|i: int| 0 <= i < n implies direct_written_at(
            b,
            #[trigger] ids[i],
            states[i],
            states[i + 1],
            f + g,
        ) by {
            if i < last {
                lemma_direct_written_deeper(b, ids[i], states[i], states[i + 1], f, f + g);
            } else {
                lemma_direct_written_deeper(b, ids[i], states[i], states[i + 1], g, f + g);
            }
        }
        f + g
    }
}

/// Each module has its text under its path, and there are no other texts.
pub proof fn law_each_module_has_its_text(groups: Seq<ModGroupView>, codes: Seq<Text>, i: int)
    requires
        codes.len() == groups.len(),
        forall|j: int, k: int|
            0 <= j < k < groups.len() ==> (#[trigger] groups[j]).path != (#[trigger] groups[k]).path,
        0 <= i < groups.len(),
    ensures
        gathered(groups, codes).contains_key(groups[i].path),
        gathered(groups, codes)[groups[i].path] == codes[i],
        forall|path: Seq<Text>| #[trigger]
            gathered(groups, codes).contains_key(path) ==> exists|j: int|
                0 <= j < groups.len() && (#[trigger] groups[j]).path == path,
    decreases groups.len(),
{
    assert forall|path: Seq<Text>| #[trigger]
        gathered(groups, codes).contains_key(path) implies exists|j: int|
        0 <= j < groups.len() && (#[trigger] groups[j]).path == path by {
        lemma_gathered(groups, codes, path);
    }
    let n = groups.len() - 1;
    if i < n {
        let less = groups.drop_last();
        assert forall|j: int, k: int| 0 <= j < k < less.len() implies (#[trigger] less[j]).path != (
        #[trigger] less[k]).path by {
            assert(groups[j].path != groups[k].path);
        }
        law_each_module_has_its_text(less, codes.drop_last(), i);
        assert(less[i] == groups[i]);
        assert(groups[i].path != groups[n].path);
    }
}

/// Whether a module has no name, or an empty one.
pub open spec fn nameless(node: PkgNode) -> bool {
    node.ident is None || node.ident->0@.len() == 0
}

/// The text under a path, or nothing if there is none.
pub open spec fn held(pkgs: Map<Seq<Text>, Text>, path: Seq<Text>) -> Text {
    if pkgs.dom().contains(path) {
        pkgs[path]
    } else {
        Seq::empty()
    }
}

/// The paths of a forest in the order in which its texts are written: of each
/// module first its own, then those below it; and none after a module without a
/// name and what is below it.
pub open spec fn path_order(nodes: Seq<PkgNode>) -> Seq<Seq<Text>>
    decreases nodes,
{
    if nodes.len() == 0 {
        Seq::empty()
    } else {
        let upto = seq![texts(nodes[0].path@)] + path_order(nodes[0].children@);
        if nameless(nodes[0]) {
            upto
        } else {
            upto + path_order(nodes.drop_first())
        }
    }
}

/// The texts along a sequence of paths, where each text is taken the first time
/// that its path comes up.
pub open spec fn taken_along(pkgs: Map<Seq<Text>, Text>, order: Seq<Seq<Text>>) -> Text
    decreases order.len(),
{
    if order.len() == 0 {
        Seq::empty()
    } else {
        held(pkgs, order[0]) + taken_along(pkgs.remove(order[0]), order.drop_first())
    }
}

/// The texts along a sequence of paths.
pub open spec fn text_along(pkgs: Map<Seq<Text>, Text>, order: Seq<Seq<Text>>) -> Text
    decreases order.len(),
{
    if order.len() == 0 {
        Seq::empty()
    } else {
        held(pkgs, order[0]) + text_along(pkgs, order.drop_first())
    }
}

proof fn lemma_taken_along_parts(
    pkgs: Map<Seq<Text>, Text>,
    a: Seq<Seq<Text>>,
    b: Seq<Seq<Text>>,
)
    ensures
        taken_along(pkgs, a + b) == taken_along(pkgs, a) + taken_along(
            pkgs.remove_keys(a.to_set()),
            b,
        ),
    decreases a.len(),
{
    if a.len() == 0 {
        assert(a + b =~= b);
        assert(pkgs.remove_keys(a.to_set()) =~= pkgs);
        assert(taken_along(pkgs, a) + taken_along(pkgs, b) =~= taken_along(pkgs, b));
    } else {
        let rest = a.drop_first();
        let less = pkgs.remove(a[0]);
        lemma_taken_along_parts(less, rest, b);
        assert((a + b).drop_first() =~= rest + b);
        assert(less.remove_keys(rest.to_set()) =~= pkgs.remove_keys(a.to_set())) by {
            assert(a =~= seq![a[0]] + rest);
            assert forall|p: Seq<Text>| a.contains(p) == (p == a[0] || rest.contains(p)) by {
                if a.contains(p) {
                    let i = a.index_of(p);
                    if i > 0 {
                        assert(rest[i - 1] == p);
                    }
                }
                if rest.contains(p) {
                    let i = rest.index_of(p);
                    assert(a[i + 1] == p);
                }
                assert(a.contains(a[0]));
            }
        }
        let tail = taken_along(pkgs.remove_keys(a.to_set()), b);
        assert(held(pkgs, a[0]) + (taken_along(less, rest) + tail) =~= (held(pkgs, a[0])
            + taken_along(less, rest)) + tail);
    }
}

/// The texts of a forest are written in the order of its paths, each the first
/// time that its path comes up; and what has been written is no longer held.
pub proof fn law_forest_order(pkgs: Map<Seq<Text>, Text>, nodes: Seq<PkgNode>)
    ensures
        write_out(pkgs, nodes).0 == pkgs.remove_keys(path_order(nodes).to_set()),
        write_out(pkgs, nodes).1 == taken_along(pkgs, path_order(nodes)),
    decreases nodes,
{
    if nodes.len() == 0 {
        assert(pkgs.remove_keys(path_order(nodes).to_set()) =~= pkgs);
    } else {
        let path = texts(nodes[0].path@);
        let own = seq![path];
        let below = path_order(nodes[0].children@);
        let upto = own + below;
        let (left, text) = write_out(pkgs.remove(path), nodes[0].children@);
        law_forest_order(pkgs.remove(path), nodes[0].children@);
        assert(upto.drop_first() =~= below);
        assert(left =~= pkgs.remove_keys(upto.to_set())) by {
            assert forall|p: Seq<Text>| upto.contains(p) == (p == path || below.contains(p)) by {
                assert(upto[0] == path);
                if below.contains(p) {
                    assert(upto[below.index_of(p) + 1] == p);
                }
                if upto.contains(p) && upto.index_of(p) > 0 {
                    assert(below[upto.index_of(p) - 1] == p);
                }
            }
        }
        if !nameless(nodes[0]) {
            let rest = nodes.drop_first();
            let after = path_order(rest);
            law_forest_order(left, rest);
            lemma_taken_along_parts(pkgs, upto, after);
            assert(left.remove_keys(after.to_set()) =~= pkgs.remove_keys((upto + after).to_set()))
                by {
                assert forall|p: Seq<Text>|
                    (upto + after).contains(p) == (upto.contains(p) || after.contains(p)) by {
                    if upto.contains(p) {
                        assert((upto + after)[upto.index_of(p)] == p);
                    }
                    if after.contains(p) {
                        assert((upto + after)[upto.len() + after.index_of(p)] == p);
                    }
                    if (upto + after).contains(p) {
                        let i = (upto + after).index_of(p);
                        if i < upto.len() {
                            assert(upto[i] == p);
                        } else {
                            assert(after[i - upto.len()] == p);
                        }
                    }
                }
            }
        }
    }
}

/// Where no path comes up twice in a forest, all texts along its paths are
/// written, in that order.
pub proof fn law_forest_writes_all(pkgs: Map<Seq<Text>, Text>, nodes: Seq<PkgNode>)
    requires
        path_order(nodes).no_duplicates(),
    ensures
        write_out(pkgs, nodes).1 == text_along(pkgs, path_order(nodes)),
{
    law_forest_order(pkgs, nodes);
    lemma_taken_is_text(pkgs, pkgs, path_order(nodes));
}

proof fn lemma_taken_is_text(
    pkgs: Map<Seq<Text>, Text>,
    less: Map<Seq<Text>, Text>,
    order: Seq<Seq<Text>>,
)
    requires
        order.no_duplicates(),
        forall|i: int| 0 <= i < order.len() ==> held(less, #[trigger] order[i]) == held(pkgs, order[i]),
    ensures
        taken_along(less, order) == text_along(pkgs, order),
    decreases order.len(),
{
    if order.len() > 0 {
        let rest = order.drop_first();
        assert forall|i: int| 0 <= i < rest.len() implies held(
            less.remove(order[0]),
            #[trigger] rest[i],
        ) == held(pkgs, rest[i]) by {
            assert(rest[i] == order[i + 1]);
            assert(order[i + 1] != order[0]);
        }
        lemma_taken_is_text(pkgs, less.remove(order[0]), rest);
    }
}


proof fn lemma_taken_along_holds(
    pkgs: Map<Seq<Text>, Text>,
    order: Seq<Seq<Text>>,
    path: Seq<Text>,
)
    requires
        pkgs.contains_key(path),
        order.contains(path),
    ensures
        stands_in(pkgs[path], taken_along(pkgs, order)),
    decreases order.len(),
{
    let rest = order.drop_first();
    let less = pkgs.remove(order[0]);
    if order[0] == path {
        assert(taken_along(pkgs, order) =~= (Seq::<char>::empty() + pkgs[path]) + taken_along(
            less,
            rest,
        ));
    } else {
        assert(rest[order.index_of(path) - 1] == path);
        lemma_taken_along_holds(less, rest, path);
        let own = held(pkgs, order[0]);
        let (front, back) = choose|front: Text, back: Text|
            taken_along(less, rest) == #[trigger] ((front + pkgs[path]) + back);
        assert(taken_along(pkgs, order) =~= ((own + front) + pkgs[path]) + back);
    }
}

/// Every item that is written has its module in the output: where the tree has a
/// place for the module, the text of the module stands in what is written, and
/// that text is the item's and those of the module's other items, written after
/// they had been checked.
pub proof fn law_every_item_is_in_the_output<
    B: CodegenBackend,
    F: Fn(&Vec<Vec<String>>) -> Vec<PkgNode>,
>(run: Emission<B>, items: Seq<CodegenItem>, from_pkgs: F, k: int)
    requires
        run.of(items, from_pkgs),
        0 <= k < items.len(),
        path_order(run.nodes@).contains(run.backends[0].context().mod_key(items[k].def_id)),
    ensures
        exists|i: int|
            0 <= i < run.groups.len() && (#[trigger] run.groups[i]).items.contains(items[k])
                && mod_emitted(
                run.backends[i],
                run.groups[i].items,
                run.backends[i + 1],
                run.codes[i],
            ) && stands_in(run.codes[i], run.text()),
{
    let cx = run.backends[0].context();
    let key = cx.mod_key(items[k].def_id);
    let i = choose|i: int| 0 <= i < run.groups.len() && (#[trigger] run.groups[i]).path == key;
    law_each_item_in_one_group(cx, items, run.groups, k, i);
    law_each_module_has_its_text(run.groups, run.codes, i);
    law_forest_order(gathered(run.groups, run.codes), run.nodes@);
    lemma_taken_along_holds(gathered(run.groups, run.codes), path_order(run.nodes@), key);
    assert(run.groups[i].items.contains(items[k]));
}

/// A run over many items changes what the backend knows of the program, and
/// nothing else of it.
pub proof fn law_run_keeps_the_backend<
    B: CodegenBackend,
    F: Fn(&Vec<Vec<String>>) -> Vec<PkgNode>,
>(run: Emission<B>, items: Seq<CodegenItem>, from_pkgs: F, i: int)
    requires
        run.of(items, from_pkgs),
        0 <= i < run.backends.len(),
    ensures
        run.backends[i].rest() == run.backends[0].rest(),
    decreases i,
{
    if i > 0 {
        law_run_keeps_the_backend(run, items, from_pkgs, i - 1);
        assert(mod_emitted(
            run.backends[i - 1],
            run.groups[i - 1].items,
            run.backends[i],
            run.codes[i - 1],
        ));
    }
}

} // verus!
