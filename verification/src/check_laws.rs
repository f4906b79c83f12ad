//! What holds of checks, said of the definitions alone.
use crate::context::{AdjustView, ContextView};
use crate::preflight::lemma_ready_from_below;
use crate::render::{repr_c_text, struct_text};
use crate::render_laws::{law_struct_frame, told_to_box};
use crate::rir::{DefId, FieldView, ItemView, MethodView, TyView};
use crate::scalar::{
    Record, Slot, checked, field_slot, method_slots, raw_ptr_field, ready, ready_at, record_after,
    scalar_value, service_slots, slots, visits,
};
use crate::scalar_lemmas::{
    lemma_checked_frame, lemma_service_slot_at, lemma_service_value, lemma_step_down,
    lemma_tail_push, lemma_visited, lemma_visits, tail_value,
};
use vstd::prelude::*;

verus! {

/// The item that the node of a definition holds, if there is such a node and it
/// holds one.
pub open spec fn item_of(cx: ContextView, d: DefId) -> Option<ItemView> {
    if d < cx.nodes.len() {
        cx.nodes[d as int].item
    } else {
        None
    }
}

/// The definition that a type names.
pub open spec fn named(ty: TyView) -> DefId {
    ty.kind->Path_0.did
}

/// Whether a field is held by pointer: it may be absent, or its adjustment says to
/// box it.
pub open spec fn by_pointer(cx: ContextView, f: FieldView) -> bool {
    f.kind is Optional || told_to_box(cx, f.did)
}

/// A field is held by pointer if and only if it may be absent or is to be boxed,
/// whatever else its adjustment holds.
pub proof fn law_held_by_pointer(f: FieldView, adjust: Option<AdjustView>)
    ensures
        f.kind is Optional ==> raw_ptr_field(f, adjust),
        adjust is Some && adjust->0.boxed ==> raw_ptr_field(f, adjust),
        !(f.kind is Optional) && adjust is None ==> !raw_ptr_field(f, adjust),
        !(f.kind is Optional) && adjust is Some && !adjust->0.boxed ==> !raw_ptr_field(f, adjust),
{
}

/// In a message that is checked a field counts as held by pointer if and only if
/// it may be absent or the adjustment of the field says to box it.
pub proof fn law_field_by_pointer(cx: ContextView, f: FieldView)
    ensures
        field_slot(cx, f).by_ptr <==> by_pointer(cx, f),
{
}

/// A message is found to lie on the stack if and only if it has not been found
/// wanting before, and none of its fields is held by pointer or marked as off the
/// stack.
pub proof fn law_message_answer(cx: ContextView, rec: Record, d: DefId)
    requires
        ready(cx, rec, d),
        !rec.contains_key(d),
        item_of(cx, d) matches Some(ItemView::Message(_)),
    ensures
        ({
            let m = item_of(cx, d)->0->Message_0;
            scalar_value(cx, rec, d) <==> m.all_in_stack != Some(false) && forall|i: int|
                0 <= i < m.fields.len() ==> !by_pointer(cx, #[trigger] m.fields[i])
                    && m.fields[i].ty.in_stack != Some(false)
        }),
{
    let m = item_of(cx, d)->0->Message_0;
    assert(cx.item(d) == item_of(cx, d));
    assert forall|i: int| 0 <= i < m.fields.len() implies (#[trigger] slots(cx, d)[i]).by_ptr
        == by_pointer(cx, m.fields[i]) && slots(cx, d)[i].ty == m.fields[i].ty by {}
    if scalar_value(cx, rec, d) {
        assert forall|i: int| 0 <= i < m.fields.len() implies !by_pointer(
            cx,
            #[trigger] m.fields[i],
        ) && m.fields[i].ty.in_stack != Some(false) by {
            assert(!slots(cx, d)[i].by_ptr && slots(cx, d)[i].ty.in_stack != Some(false));
        }
    } else if m.all_in_stack != Some(false) && forall|i: int|
        0 <= i < m.fields.len() ==> !by_pointer(cx, #[trigger] m.fields[i])
            && m.fields[i].ty.in_stack != Some(false) {
        assert forall|i: int| 0 <= i < slots(cx, d).len() implies !(
        #[trigger] slots(cx, d)[i]).by_ptr && slots(cx, d)[i].ty.in_stack != Some(false) by {
            assert(!by_pointer(cx, m.fields[i]));
        }
        assert(false);
    }
}

/// A message of required fields that nothing says to box and that are all marked as
/// on the stack is found to lie on the stack, and is written with `#[repr(C)]`
/// from then on, unless it was found wanting before.
pub proof fn law_message_of_stack_values(cx: ContextView, rec: Record, d: DefId)
    requires
        ready(cx, rec, d),
        !rec.contains_key(d),
        item_of(cx, d) matches Some(ItemView::Message(m)) && m.all_in_stack != Some(false)
            && forall|i: int|
            0 <= i < m.fields.len() ==> !((#[trigger] m.fields[i]).kind is Optional)
                && !told_to_box(cx, m.fields[i].did) && m.fields[i].ty.in_stack == Some(true),
    ensures
        scalar_value(cx, rec, d),
        ({
            let cx1 = checked(cx, rec, d);
            &&& item_of(cx1, d) matches Some(ItemView::Message(m1)) && m1.all_in_stack == Some(true)
            &&& repr_c_text(item_of(cx1, d)->0->Message_0) == "#[repr(C)]"@
            &&& "#[repr(C)]"@.is_prefix_of(
                struct_text(cx1, d, item_of(cx1, d)->0->Message_0),
            )
        }),
{
    let m = item_of(cx, d)->0->Message_0;
    law_message_answer(cx, rec, d);
    assert forall|i: int| 0 <= i < m.fields.len() implies !by_pointer(cx, #[trigger] m.fields[i])
        && m.fields[i].ty.in_stack != Some(false) by {}
    lemma_visits(cx, rec, d, d);
    law_message_after(cx, rec, d, d);
    let cx1 = checked(cx, rec, d);
    let m1 = item_of(cx1, d)->0->Message_0;
    law_struct_frame(cx1, d, m1);
}

/// A message that a check visits is left with what was found of it, and with its
/// fields as they were but for their marks: those held by pointer are marked as off
/// the stack, those that were marked keep their marks, and the others get what was
/// found of what they name.
pub proof fn law_message_after(cx: ContextView, rec: Record, d: DefId, e: DefId)
    requires
        ready(cx, rec, d),
        visits(cx, rec, d, e),
        item_of(cx, e) matches Some(ItemView::Message(_)),
    ensures
        ({
            let m = item_of(cx, e)->0->Message_0;
            let item1 = item_of(checked(cx, rec, d), e);
            let m1 = item1->0->Message_0;
            &&& item1 matches Some(ItemView::Message(_))
            &&& m1.all_in_stack == Some(scalar_value(cx, rec, e))
            &&& m1.fields.len() == m.fields.len()
            &&& forall|i: int|
                #![trigger m1.fields[i]]
                0 <= i < m.fields.len() ==> {
                    &&& m1.fields[i].did == m.fields[i].did
                    &&& m1.fields[i].kind == m.fields[i].kind
                    &&& m1.fields[i].ty.kind == m.fields[i].ty.kind
                    &&& m1.fields[i].ty.code == m.fields[i].ty.code
                    &&& by_pointer(cx, m.fields[i]) ==> m1.fields[i].ty.in_stack == Some(false)
                    &&& !by_pointer(cx, m.fields[i]) && m.fields[i].ty.in_stack is Some
                        ==> m1.fields[i].ty.in_stack == m.fields[i].ty.in_stack
                    &&& !by_pointer(cx, m.fields[i]) && m.fields[i].ty.in_stack is None
                        ==> m1.fields[i].ty.in_stack == Some(
                        scalar_value(cx, rec, named(m.fields[i].ty)),
                    )
                }
        }),
{
    assert(cx.item(e) == item_of(cx, e));
    assert(checked(cx, rec, d).item(e) == item_of(checked(cx, rec, d), e));
    lemma_checked_frame(cx, rec, d, e);
}

/// The type of an argument of a method, or of what it returns if it has no such
/// argument.
pub open spec fn place(m: MethodView, a: int) -> TyView {
    if a < m.args.len() {
        m.args[a]
    } else {
        m.ret
    }
}

/// Whether method `i` has a place `a`: one for each argument, and one for what it
/// returns.
pub open spec fn has_place(methods: Seq<MethodView>, i: int, a: int) -> bool {
    0 <= i < methods.len() && 0 <= a <= methods[i].args.len()
}

/// Where a place stands among those of all methods.
proof fn lemma_place_at(methods: Seq<MethodView>, i: int, a: int) -> (k: int)
    requires
        has_place(methods, i, a),
    ensures
        0 <= k < service_slots(methods).len(),
        service_slots(methods)[k] == (Slot { by_ptr: false, ty: place(methods[i], a) }),
{
    lemma_service_slot_at(methods, i, a);
    service_slots(methods.take(i)).len() + a
}

/// Which place stands there among those of all methods.
proof fn lemma_at_place(methods: Seq<MethodView>, k: int) -> (ia: (int, int))
    requires
        0 <= k < service_slots(methods).len(),
    ensures
        has_place(methods, ia.0, ia.1),
        service_slots(methods)[k] == (Slot { by_ptr: false, ty: place(methods[ia.0], ia.1) }),
    decreases methods.len(),
{
    let less = methods.drop_last();
    let front = service_slots(less);
    let back = method_slots(methods.last());
    if k < front.len() {
        assert((front + back)[k] == front[k]);
        let ia = lemma_at_place(less, k);
        assert(methods[ia.0] == less[ia.0]);
        ia
    } else {
        assert((front + back)[k] == back[k - front.len()]);
        (methods.len() - 1, k - front.len())
    }
}

/// A service that a check visits is left as it was but for its marks: places that
/// were marked keep their marks, and the others get what was found of what they
/// name.
pub proof fn law_service_after(cx: ContextView, rec: Record, d: DefId, e: DefId)
    requires
        ready(cx, rec, d),
        visits(cx, rec, d, e),
        item_of(cx, e) matches Some(ItemView::Service(_)),
    ensures
        ({
            let s = item_of(cx, e)->0->Service_0;
            let item1 = item_of(checked(cx, rec, d), e);
            let s1 = item1->0->Service_0;
            &&& item1 matches Some(ItemView::Service(_))
            &&& s1.methods.len() == s.methods.len()
            &&& forall|i: int|
                0 <= i < s.methods.len() ==> (#[trigger] s1.methods[i]).name == s.methods[i].name
                    && s1.methods[i].args.len() == s.methods[i].args.len()
            &&& forall|i: int, a: int|
                has_place(s.methods, i, a) ==> {
                    let before = place(s.methods[i], a);
                    let after = #[trigger] place(s1.methods[i], a);
                    &&& after.kind == before.kind
                    &&& after.code == before.code
                    &&& before.in_stack is Some ==> after.in_stack == before.in_stack
                    &&& before.in_stack is None ==> after.in_stack == Some(
                        scalar_value(cx, rec, named(before)),
                    )
                }
        }),
{
    assert(cx.item(e) == item_of(cx, e));
    assert(checked(cx, rec, d).item(e) == item_of(checked(cx, rec, d), e));
    lemma_checked_frame(cx, rec, d, e);
}

/// Items other than messages and services are left as they were.
pub proof fn law_other_items_after(cx: ContextView, rec: Record, d: DefId, e: DefId)
    requires
        ready(cx, rec, d),
        !(item_of(cx, e) matches Some(ItemView::Message(_))),
        !(item_of(cx, e) matches Some(ItemView::Service(_))),
    ensures
        item_of(checked(cx, rec, d), e) == item_of(cx, e),
{
    assert(cx.item(e) == item_of(cx, e));
    assert(checked(cx, rec, d).item(e) == item_of(checked(cx, rec, d), e));
    lemma_checked_frame(cx, rec, d, e);
    if visits(cx, rec, d, e) {
        lemma_visited(cx, rec, d, e);
    }
}

/// What is known after a place has been looked at: a mark on it replaces what was
/// known, and without one what it names has to be found on the stack too.
pub open spec fn after_place(cx: ContextView, rec: Record, so_far: bool, ty: TyView) -> bool {
    match ty.in_stack {
        Some(b) => b,
        None => so_far && scalar_value(cx, rec, named(ty)),
    }
}

/// What is known after arguments have been looked at, in order.
pub open spec fn after_args(
    cx: ContextView,
    rec: Record,
    so_far: bool,
    args: Seq<TyView>,
) -> bool
    decreases args.len(),
{
    if args.len() == 0 {
        so_far
    } else {
        after_place(cx, rec, after_args(cx, rec, so_far, args.drop_last()), args.last())
    }
}

/// What is known after methods have been looked at, in order: of each its
/// arguments, then what it returns.
pub open spec fn after_methods(cx: ContextView, rec: Record, methods: Seq<MethodView>) -> bool
    decreases methods.len(),
{
    if methods.len() == 0 {
        true
    } else {
        let before = after_methods(cx, rec, methods.drop_last());
        let m = methods.last();
        after_place(cx, rec, after_args(cx, rec, before, m.args), m.ret)
    }
}

proof fn lemma_args_tail(
    cx: ContextView,
    rec: Record,
    pre: Seq<Slot>,
    m: MethodView,
    n: int,
)
    requires
        0 <= n <= m.args.len(),
    ensures
        tail_value(cx, rec, pre + method_slots(m).take(n)) == after_args(
            cx,
            rec,
            tail_value(cx, rec, pre),
            m.args.take(n),
        ),
    decreases n,
{
    let all = method_slots(m);
    if n == 0 {
        assert(pre + all.take(0) =~= pre);
    } else {
        lemma_args_tail(cx, rec, pre, m, n - 1);
        let front = pre + all.take(n - 1);
        assert(pre + all.take(n) =~= front.push(all[n - 1]));
        assert(m.args.take(n).drop_last() =~= m.args.take(n - 1));
        lemma_tail_push(cx, rec, front, all[n - 1]);
    }
}

proof fn lemma_methods_tail(cx: ContextView, rec: Record, methods: Seq<MethodView>)
    ensures
        tail_value(cx, rec, service_slots(methods)) == after_methods(cx, rec, methods),
    decreases methods.len(),
{
    if methods.len() > 0 {
        let less = methods.drop_last();
        let m = methods.last();
        let pre = service_slots(less);
        let all = method_slots(m);
        let n = m.args.len() as int;
        lemma_methods_tail(cx, rec, less);
        lemma_args_tail(cx, rec, pre, m, n);
        assert(m.args.take(n) =~= m.args);
        let front = pre + all.take(n);
        assert(pre + all =~= front.push(all[n]));
        lemma_tail_push(cx, rec, front, all[n]);
    }
}

/// What is found of a service is what is known once its methods have been looked
/// at, in order; so a mark on the last place decides alone.
pub proof fn law_service_answer(cx: ContextView, rec: Record, d: DefId)
    requires
        ready(cx, rec, d),
        !rec.contains_key(d),
        item_of(cx, d) matches Some(ItemView::Service(_)),
    ensures
        ({
            let s = item_of(cx, d)->0->Service_0;
            &&& scalar_value(cx, rec, d) == after_methods(cx, rec, s.methods)
            &&& s.methods.len() > 0 && s.methods.last().ret.in_stack is Some ==> s.methods.last().ret.in_stack
                == Some(scalar_value(cx, rec, d))
        }),
{
    let s = item_of(cx, d)->0->Service_0;
    assert(cx.item(d) == item_of(cx, d));
    lemma_service_value(cx, rec, d);
    lemma_methods_tail(cx, rec, s.methods);
}

/// Where nothing in a service is marked, it is found on the stack if and only if
/// all that its methods take and return is.
pub proof fn law_unmarked_service_answer(cx: ContextView, rec: Record, d: DefId)
    requires
        ready(cx, rec, d),
        !rec.contains_key(d),
        item_of(cx, d) matches Some(ItemView::Service(s)) && forall|i: int, a: int|
            has_place(s.methods, i, a) ==> (#[trigger] place(s.methods[i], a)).in_stack is None,
    ensures
        ({
            let s = item_of(cx, d)->0->Service_0;
            scalar_value(cx, rec, d) <==> forall|i: int, a: int|
                has_place(s.methods, i, a) ==> scalar_value(
                    cx,
                    rec,
                    named(#[trigger] place(s.methods[i], a)),
                )
        }),
{
    let s = item_of(cx, d)->0->Service_0;
    law_service_answer(cx, rec, d);
    lemma_unmarked_methods(cx, rec, s.methods);
}

proof fn lemma_unmarked_args(cx: ContextView, rec: Record, so_far: bool, args: Seq<TyView>)
    requires
        forall|a: int| 0 <= a < args.len() ==> (#[trigger] args[a]).in_stack is None,
    ensures
        after_args(cx, rec, so_far, args) <==> so_far && forall|a: int|
            0 <= a < args.len() ==> scalar_value(cx, rec, named(#[trigger] args[a])),
    decreases args.len(),
{
    if args.len() > 0 {
        let less = args.drop_last();
        assert forall|a: int| 0 <= a < less.len() implies (#[trigger] less[a]).in_stack is None by {
            assert(args[a].in_stack is None);
        }
        lemma_unmarked_args(cx, rec, so_far, less);
        assert(args[args.len() - 1].in_stack is None);
        if after_args(cx, rec, so_far, args) {
            assert forall|a: int| 0 <= a < args.len() implies scalar_value(
                cx,
                rec,
                named(#[trigger] args[a]),
            ) by {
                if a < less.len() {
                    assert(scalar_value(cx, rec, named(less[a])));
                }
            }
        }
        if so_far && forall|a: int|
            0 <= a < args.len() ==> scalar_value(cx, rec, named(#[trigger] args[a])) {
            assert forall|a: int| 0 <= a < less.len() implies scalar_value(
                cx,
                rec,
                named(#[trigger] less[a]),
            ) by {
                assert(scalar_value(cx, rec, named(args[a])));
            }
            assert(scalar_value(cx, rec, named(args[args.len() - 1])));
        }
    }
}

proof fn lemma_unmarked_methods(cx: ContextView, rec: Record, methods: Seq<MethodView>)
    requires
        forall|i: int, a: int|
            has_place(methods, i, a) ==> (#[trigger] place(methods[i], a)).in_stack is None,
    ensures
        after_methods(cx, rec, methods) <==> forall|i: int, a: int|
            has_place(methods, i, a) ==> scalar_value(
                cx,
                rec,
                named(#[trigger] place(methods[i], a)),
            ),
    decreases methods.len(),
{
    if methods.len() > 0 {
        let less = methods.drop_last();
        let n = methods.len() - 1;
        let m = methods[n];
        assert forall|i: int, a: int| has_place(less, i, a) implies (
        #[trigger] place(less[i], a)).in_stack is None by {
            assert(place(methods[i], a).in_stack is None);
        }
        lemma_unmarked_methods(cx, rec, less);
        assert forall|a: int| 0 <= a < m.args.len() implies (#[trigger] m.args[a]).in_stack is None by {
            assert(has_place(methods, n, a));
            assert(place(methods[n], a).in_stack is None);
        }
        let before = after_methods(cx, rec, less);
        lemma_unmarked_args(cx, rec, before, m.args);
        assert(has_place(methods, n, m.args.len() as int));
        assert(place(methods[n], m.args.len() as int).in_stack is None);
        if after_methods(cx, rec, methods) {
            assert forall|i: int, a: int| has_place(methods, i, a) implies scalar_value(
                cx,
                rec,
                named(#[trigger] place(methods[i], a)),
            ) by {
                if i < n {
                    assert(has_place(less, i, a));
                    assert(scalar_value(cx, rec, named(place(less[i], a))));
                } else if a < m.args.len() {
                    assert(scalar_value(cx, rec, named(m.args[a])));
                }
            }
        }
        if forall|i: int, a: int|
            has_place(methods, i, a) ==> scalar_value(
                cx,
                rec,
                named(#[trigger] place(methods[i], a)),
            ) {
            assert forall|i: int, a: int| has_place(less, i, a) implies scalar_value(
                cx,
                rec,
                named(#[trigger] place(less[i], a)),
            ) by {
                assert(has_place(methods, i, a));
                assert(scalar_value(cx, rec, named(place(methods[i], a))));
            }
            assert forall|a: int| 0 <= a < m.args.len() implies scalar_value(
                cx,
                rec,
                named(#[trigger] m.args[a]),
            ) by {
                assert(has_place(methods, n, a));
                assert(scalar_value(cx, rec, named(place(methods[n], a))));
            }
        }
    }
}

/// Enums, new types, constants and modules are never found on the stack; and what
/// is in the record is found to be what the record says.
pub proof fn law_other_answers(cx: ContextView, rec: Record, d: DefId)
    ensures
        rec.contains_key(d) ==> scalar_value(cx, rec, d) == rec[d],
        !rec.contains_key(d) && (item_of(cx, d) matches Some(item) && !(item is Message) && !(
        item is Service)) ==> !scalar_value(cx, rec, d),
{
    assert(cx.item(d) == item_of(cx, d));
}

/// What a check puts into the record: what it found of the messages and services
/// that it visited, and of nothing else; what was in it stays.
pub proof fn law_record_after(cx: ContextView, rec: Record, d: DefId, e: DefId)
    ensures
        rec.contains_key(e) ==> record_after(cx, rec, d).contains_key(e) && record_after(
            cx,
            rec,
            d,
        )[e] == rec[e],
        !rec.contains_key(e) ==> (record_after(cx, rec, d).contains_key(e) <==> visits(
            cx,
            rec,
            d,
            e,
        ) && (item_of(cx, e) matches Some(item) && (item is Message || item is Service))),
        record_after(cx, rec, d).contains_key(e) ==> record_after(cx, rec, d)[e] == scalar_value(
            cx,
            rec,
            e,
        ),
{
    assert(cx.item(e) == item_of(cx, e));
}

/// A check of a message visits the message, and what a check of anything visits
/// that its unmarked fields name which are not held by pointer; none of this if the
/// message is in the record.
pub proof fn law_message_visits(cx: ContextView, rec: Record, d: DefId, e: DefId)
    requires
        ready(cx, rec, d),
        item_of(cx, d) matches Some(ItemView::Message(_)),
    ensures
        ({
            let m = item_of(cx, d)->0->Message_0;
            visits(cx, rec, d, e) <==> !rec.contains_key(d) && (e == d || exists|i: int|
                0 <= i < m.fields.len() && !by_pointer(cx, #[trigger] m.fields[i])
                    && m.fields[i].ty.in_stack is None && visits(
                    cx,
                    rec,
                    named(m.fields[i].ty),
                    e,
                ))
        }),
{
    let m = item_of(cx, d)->0->Message_0;
    assert(cx.item(d) == item_of(cx, d));
    lemma_visits(cx, rec, d, e);
    assert forall|i: int| 0 <= i < m.fields.len() implies (#[trigger] slots(cx, d)[i])
        == field_slot(cx, m.fields[i]) by {}
    if exists|i: int|
        0 <= i < slots(cx, d).len() && (#[trigger] slots(cx, d)[i]).open() && visits(
            cx,
            rec,
            slots(cx, d)[i].target(),
            e,
        ) {
        let i = choose|i: int|
            0 <= i < slots(cx, d).len() && (#[trigger] slots(cx, d)[i]).open() && visits(
                cx,
                rec,
                slots(cx, d)[i].target(),
                e,
            );
        assert(!by_pointer(cx, m.fields[i]));
    }
    if exists|i: int|
        0 <= i < m.fields.len() && !by_pointer(cx, #[trigger] m.fields[i])
            && m.fields[i].ty.in_stack is None && visits(cx, rec, named(m.fields[i].ty), e) {
        let i = choose|i: int|
            0 <= i < m.fields.len() && !by_pointer(cx, #[trigger] m.fields[i])
                && m.fields[i].ty.in_stack is None && visits(cx, rec, named(m.fields[i].ty), e);
        assert(slots(cx, d)[i].open());
    }
}

/// A check of a service visits the service, and what a check of anything visits
/// that its unmarked places name; none of this if the service is in the record.
pub proof fn law_service_visits(cx: ContextView, rec: Record, d: DefId, e: DefId)
    requires
        ready(cx, rec, d),
        item_of(cx, d) matches Some(ItemView::Service(_)),
    ensures
        ({
            let s = item_of(cx, d)->0->Service_0;
            visits(cx, rec, d, e) <==> !rec.contains_key(d) && (e == d || exists|i: int, a: int|
                has_place(s.methods, i, a) && (#[trigger] place(s.methods[i], a)).in_stack is None
                    && visits(cx, rec, named(place(s.methods[i], a)), e))
        }),
{
    let methods = item_of(cx, d)->0->Service_0.methods;
    assert(cx.item(d) == item_of(cx, d));
    lemma_visits(cx, rec, d, e);
    if exists|i: int|
        0 <= i < slots(cx, d).len() && (#[trigger] slots(cx, d)[i]).open() && visits(
            cx,
            rec,
            slots(cx, d)[i].target(),
            e,
        ) {
        let k = choose|i: int|
            0 <= i < slots(cx, d).len() && (#[trigger] slots(cx, d)[i]).open() && visits(
                cx,
                rec,
                slots(cx, d)[i].target(),
                e,
            );
        let (i, a) = lemma_at_place(methods, k);
        assert(place(methods[i], a).in_stack is None);
    }
    if exists|i: int, a: int|
        has_place(methods, i, a) && (#[trigger] place(methods[i], a)).in_stack is None && visits(
            cx,
            rec,
            named(place(methods[i], a)),
            e,
        ) {
        let (i, a) = choose|i: int, a: int|
            has_place(methods, i, a) && (#[trigger] place(methods[i], a)).in_stack is None
                && visits(cx, rec, named(place(methods[i], a)), e);
        let k = lemma_place_at(methods, i, a);
        assert(slots(cx, d)[k].open());
    }
}

/// A check of anything else visits only that.
pub proof fn law_other_visits(cx: ContextView, rec: Record, d: DefId, e: DefId)
    requires
        item_of(cx, d) matches Some(item) && !(item is Message) && !(item is Service),
    ensures
        visits(cx, rec, d, e) <==> !rec.contains_key(d) && e == d,
{
    assert(cx.item(d) == item_of(cx, d));
    assert(slots(cx, d).len() == 0);
}

proof fn lemma_ready_one_step(cx: ContextView, rec: Record, d: DefId)
    requires
        !rec.contains_key(d),
        item_of(cx, d) is Some,
    ensures
        ready(cx, rec, d) <==> forall|k: int|
            0 <= k < slots(cx, d).len() && (#[trigger] slots(cx, d)[k]).open() ==> slots(
                cx,
                d,
            )[k].ty.kind is Path && ready(cx, rec, slots(cx, d)[k].target()),
{
    assert(cx.item(d) == item_of(cx, d));
    if ready(cx, rec, d) {
        assert forall|k: int|
            0 <= k < slots(cx, d).len() && (#[trigger] slots(cx, d)[k]).open() implies slots(
            cx,
            d,
        )[k].ty.kind is Path && ready(cx, rec, slots(cx, d)[k].target()) by {
            lemma_step_down(cx, rec, d, k);
        }
    } else if forall|k: int|
        0 <= k < slots(cx, d).len() && (#[trigger] slots(cx, d)[k]).open() ==> slots(
            cx,
            d,
        )[k].ty.kind is Path && ready(cx, rec, slots(cx, d)[k].target()) {
        let f = lemma_ready_from_below(cx, rec, d, slots(cx, d).len());
        let n: nat = f + 1;
        assert((n - 1) as nat == f);
        assert(ready_at(cx, rec, d, n));
    }
}

/// A message can be checked if and only if each of its unmarked fields that is not
/// held by pointer names something that can be checked.
pub proof fn law_message_can_be_checked(cx: ContextView, rec: Record, d: DefId)
    requires
        !rec.contains_key(d),
        item_of(cx, d) matches Some(ItemView::Message(_)),
    ensures
        ({
            let m = item_of(cx, d)->0->Message_0;
            ready(cx, rec, d) <==> forall|i: int|
                0 <= i < m.fields.len() && !by_pointer(cx, #[trigger] m.fields[i])
                    && m.fields[i].ty.in_stack is None ==> m.fields[i].ty.kind is Path && ready(
                    cx,
                    rec,
                    named(m.fields[i].ty),
                )
        }),
{
    let m = item_of(cx, d)->0->Message_0;
    assert(cx.item(d) == item_of(cx, d));
    lemma_ready_one_step(cx, rec, d);
    assert forall|i: int| 0 <= i < m.fields.len() implies (#[trigger] slots(cx, d)[i])
        == field_slot(cx, m.fields[i]) by {}
    if ready(cx, rec, d) {
        assert forall|i: int|
            0 <= i < m.fields.len() && !by_pointer(cx, #[trigger] m.fields[i])
                && m.fields[i].ty.in_stack is None implies m.fields[i].ty.kind is Path && ready(
            cx,
            rec,
            named(m.fields[i].ty),
        ) by {
            assert(slots(cx, d)[i].open());
        }
    } else {
        let k = choose|k: int|
            0 <= k < slots(cx, d).len() && (#[trigger] slots(cx, d)[k]).open() && !(slots(
                cx,
                d,
            )[k].ty.kind is Path && ready(cx, rec, slots(cx, d)[k].target()));
        assert(!by_pointer(cx, m.fields[k]));
    }
}

/// A service can be checked if and only if each of its unmarked places names
/// something that can be checked.
pub proof fn law_service_can_be_checked(cx: ContextView, rec: Record, d: DefId)
    requires
        !rec.contains_key(d),
        item_of(cx, d) matches Some(ItemView::Service(_)),
    ensures
        ({
            let s = item_of(cx, d)->0->Service_0;
            ready(cx, rec, d) <==> forall|i: int, a: int|
                has_place(s.methods, i, a) && (#[trigger] place(s.methods[i], a)).in_stack is None
                    ==> place(s.methods[i], a).kind is Path && ready(
                    cx,
                    rec,
                    named(place(s.methods[i], a)),
                )
        }),
{
    let methods = item_of(cx, d)->0->Service_0.methods;
    assert(cx.item(d) == item_of(cx, d));
    lemma_ready_one_step(cx, rec, d);
    if ready(cx, rec, d) {
        assert forall|i: int, a: int|
            has_place(methods, i, a) && (#[trigger] place(methods[i], a)).in_stack is None implies place(
            methods[i],
            a,
        ).kind is Path && ready(cx, rec, named(place(methods[i], a))) by {
            let k = lemma_place_at(methods, i, a);
            assert(slots(cx, d)[k].open());
        }
    } else {
        let k = choose|k: int|
            0 <= k < slots(cx, d).len() && (#[trigger] slots(cx, d)[k]).open() && !(slots(
                cx,
                d,
            )[k].ty.kind is Path && ready(cx, rec, slots(cx, d)[k].target()));
        let (i, a) = lemma_at_place(methods, k);
        assert(place(methods[i], a).in_stack is None);
    }
}

/// Whatever is in the record can be checked, and so can every item that is neither
/// a message nor a service; what is no item cannot.
pub proof fn law_others_can_be_checked(cx: ContextView, rec: Record, d: DefId)
    ensures
        rec.contains_key(d) ==> ready(cx, rec, d),
        (item_of(cx, d) matches Some(item) && !(item is Message) && !(item is Service)) ==> ready(
            cx,
            rec,
            d,
        ),
        !rec.contains_key(d) && item_of(cx, d) is None ==> !ready(cx, rec, d),
{
    assert(cx.item(d) == item_of(cx, d));
    if rec.contains_key(d) {
        assert(ready_at(cx, rec, d, 0));
    } else if let Some(item) = item_of(cx, d) {
        if !(item is Message) && !(item is Service) {
            assert(slots(cx, d).len() == 0);
            assert(ready_at(cx, rec, d, 1));
        }
    }
}

} // verus!
