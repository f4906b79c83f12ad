//! Facts about checks that the check itself and the laws rest on.
use crate::context::{ContextView, NodeView};
use crate::rir::{DefId, ItemView, MethodView};
use crate::scalar::{
    Record, Slot, checked, depth, field_slot, in_tail, is_depth, marked_item, marked_method,
    marked_methods, marked_node, method_slots, ready, ready_at, record_after, recorded, scalar_value,
    service_slots, slot_mark, slots, value_at, visits, visits_at,
};
use vstd::prelude::*;

verus! {

pub proof fn lemma_ready_monotone(cx: ContextView, rec: Record, d: DefId, f: nat, g: nat)
    requires
        ready_at(cx, rec, d, f),
        f <= g,
    ensures
        ready_at(cx, rec, d, g),
    decreases f,
{
    if !rec.contains_key(d) {
        assert forall|i: int|
            0 <= i < slots(cx, d).len() && (#[trigger] slots(cx, d)[i]).open() implies ready_at(
            cx,
            rec,
            slots(cx, d)[i].target(),
            (g - 1) as nat,
        ) by {
            lemma_ready_monotone(
                cx,
                rec,
                slots(cx, d)[i].target(),
                (f - 1) as nat,
                (g - 1) as nat,
            );
        }
    }
}

proof fn lemma_depth_exists(cx: ContextView, rec: Record, d: DefId, f: nat)
    requires
        ready_at(cx, rec, d, f),
    ensures
        exists|m: nat| is_depth(cx, rec, d, m),
    decreases f,
{
    if exists|less: nat| less < f && ready_at(cx, rec, d, less) {
        let less = choose|less: nat| less < f && ready_at(cx, rec, d, less);
        lemma_depth_exists(cx, rec, d, less);
    } else {
        assert(is_depth(cx, rec, d, f));
    }
}

pub proof fn lemma_depth(cx: ContextView, rec: Record, d: DefId)
    requires
        ready(cx, rec, d),
    ensures
        is_depth(cx, rec, d, depth(cx, rec, d)),
{
    let f = choose|f: nat| ready_at(cx, rec, d, f);
    lemma_depth_exists(cx, rec, d, f);
}

/// No more steps are taken than are known to be enough.
pub proof fn lemma_depth_least(cx: ContextView, rec: Record, d: DefId, f: nat)
    requires
        ready_at(cx, rec, d, f),
    ensures
        depth(cx, rec, d) <= f,
{
    lemma_depth(cx, rec, d);
}

pub proof fn lemma_service_slots_by_value(methods: Seq<MethodView>)
    ensures
        forall|i: int|
            0 <= i < service_slots(methods).len() ==> !(#[trigger] service_slots(methods)[i]).by_ptr,
    decreases methods.len(),
{
    if methods.len() > 0 {
        lemma_service_slots_by_value(methods.drop_last());
        let front = service_slots(methods.drop_last());
        let back = method_slots(methods.last());
        assert forall|i: int| 0 <= i < service_slots(methods).len() implies !(
        #[trigger] service_slots(methods)[i]).by_ptr by {
            if i < front.len() {
                assert((front + back)[i] == front[i]);
            } else {
                assert((front + back)[i] == back[i - front.len()]);
            }
        }
    }
}

proof fn lemma_value_fuel(cx: ContextView, rec: Record, d: DefId, f: nat, g: nat)
    requires
        ready_at(cx, rec, d, f),
        ready_at(cx, rec, d, g),
    ensures
        value_at(cx, rec, d, f) == value_at(cx, rec, d, g),
    decreases f,
{
    if !rec.contains_key(d) {
        if let Some(ItemView::Service(s)) = cx.item(d) {
            lemma_service_slots_by_value(s.methods);
            assert forall|j: int| #[trigger]
                in_tail(slots(cx, d), j) && slots(cx, d)[j].ty.in_stack is None implies value_at(
                cx,
                rec,
                slots(cx, d)[j].target(),
                (f - 1) as nat,
            ) == value_at(cx, rec, slots(cx, d)[j].target(), (g - 1) as nat) by {
                assert(slots(cx, d)[j].open());
                lemma_value_fuel(
                    cx,
                    rec,
                    slots(cx, d)[j].target(),
                    (f - 1) as nat,
                    (g - 1) as nat,
                );
            }
            if value_at(cx, rec, d, f) {
                assert forall|j: int| #[trigger] in_tail(slots(cx, d), j) implies match slots(
                    cx,
                    d,
                )[j].ty.in_stack {
                    Some(b) => b,
                    None => value_at(cx, rec, slots(cx, d)[j].target(), (g - 1) as nat),
                } by {}
            }
            if value_at(cx, rec, d, g) {
                assert forall|j: int| #[trigger] in_tail(slots(cx, d), j) implies match slots(
                    cx,
                    d,
                )[j].ty.in_stack {
                    Some(b) => b,
                    None => value_at(cx, rec, slots(cx, d)[j].target(), (f - 1) as nat),
                } by {}
            }
        }
    }
}

proof fn lemma_visits_fuel(cx: ContextView, rec: Record, d: DefId, e: DefId, f: nat, g: nat)
    requires
        ready_at(cx, rec, d, f),
        ready_at(cx, rec, d, g),
        visits_at(cx, rec, d, e, f),
    ensures
        visits_at(cx, rec, d, e, g),
    decreases f,
{
    if e != d {
        let i = choose|i: int|
            0 <= i < slots(cx, d).len() && (#[trigger] slots(cx, d)[i]).open() && visits_at(
                cx,
                rec,
                slots(cx, d)[i].target(),
                e,
                (f - 1) as nat,
            );
        lemma_visits_fuel(
            cx,
            rec,
            slots(cx, d)[i].target(),
            e,
            (f - 1) as nat,
            (g - 1) as nat,
        );
    }
}

/// The items that an item leads to can be checked too, in fewer steps.
pub proof fn lemma_step_down(cx: ContextView, rec: Record, d: DefId, i: int)
    requires
        ready(cx, rec, d),
        !rec.contains_key(d),
        0 <= i < slots(cx, d).len(),
        slots(cx, d)[i].open(),
    ensures
        cx.item(d) is Some,
        slots(cx, d)[i].ty.kind is Path,
        ready(cx, rec, slots(cx, d)[i].target()),
        depth(cx, rec, slots(cx, d)[i].target()) < depth(cx, rec, d),
{
    lemma_depth(cx, rec, d);
    let less = (depth(cx, rec, d) - 1) as nat;
    assert(ready_at(cx, rec, slots(cx, d)[i].target(), less));
    lemma_depth_least(cx, rec, slots(cx, d)[i].target(), less);
}

/// A check visits the item itself, and what the items that it leads to visit.
pub proof fn lemma_visits(cx: ContextView, rec: Record, d: DefId, e: DefId)
    requires
        ready(cx, rec, d),
    ensures
        visits(cx, rec, d, e) <==> !rec.contains_key(d) && (e == d || exists|i: int|
            0 <= i < slots(cx, d).len() && (#[trigger] slots(cx, d)[i]).open() && visits(
                cx,
                rec,
                slots(cx, d)[i].target(),
                e,
            )),
{
    lemma_depth(cx, rec, d);
    if !rec.contains_key(d) && e != d {
        let f = depth(cx, rec, d);
        assert forall|i: int|
            0 <= i < slots(cx, d).len() && (#[trigger] slots(cx, d)[i]).open() implies visits_at(
            cx,
            rec,
            slots(cx, d)[i].target(),
            e,
            (f - 1) as nat,
        ) == visits(cx, rec, slots(cx, d)[i].target(), e) by {
            let t = slots(cx, d)[i].target();
            lemma_step_down(cx, rec, d, i);
            lemma_depth(cx, rec, t);
            if visits(cx, rec, t, e) {
                lemma_visits_fuel(cx, rec, t, e, depth(cx, rec, t), (f - 1) as nat);
            }
            if visits_at(cx, rec, t, e, (f - 1) as nat) {
                lemma_visits_fuel(cx, rec, t, e, (f - 1) as nat, depth(cx, rec, t));
            }
        }
    }
}

/// What is found of a service, in terms of what is found of the items that it
/// leads to.
pub proof fn lemma_service_value(cx: ContextView, rec: Record, d: DefId)
    requires
        ready(cx, rec, d),
        !rec.contains_key(d),
        cx.item(d) matches Some(ItemView::Service(_)),
    ensures
        scalar_value(cx, rec, d) == forall|j: int| #[trigger]
            in_tail(slots(cx, d), j) ==> slot_mark(cx, rec, slots(cx, d)[j]),
{
    lemma_depth(cx, rec, d);
    lemma_service_slots_by_value(cx.item(d)->0->Service_0.methods);
    let f = depth(cx, rec, d);
    assert forall|j: int| #[trigger] in_tail(slots(cx, d), j) implies slot_mark(
        cx,
        rec,
        slots(cx, d)[j],
    ) == match slots(cx, d)[j].ty.in_stack {
        Some(b) => b,
        None => value_at(cx, rec, slots(cx, d)[j].target(), (f - 1) as nat),
    } by {
        if slots(cx, d)[j].ty.in_stack is None {
            let t = slots(cx, d)[j].target();
            assert(slots(cx, d)[j].open());
            lemma_step_down(cx, rec, d, j);
            lemma_depth(cx, rec, t);
            lemma_value_fuel(cx, rec, t, depth(cx, rec, t), (f - 1) as nat);
        }
    }
    if scalar_value(cx, rec, d) {
        assert forall|j: int| #[trigger] in_tail(slots(cx, d), j) implies slot_mark(
            cx,
            rec,
            slots(cx, d)[j],
        ) by {}
    } else if forall|j: int| #[trigger]
        in_tail(slots(cx, d), j) ==> slot_mark(cx, rec, slots(cx, d)[j]) {
        assert forall|j: int| #[trigger] in_tail(slots(cx, d), j) implies match slots(
            cx,
            d,
        )[j].ty.in_stack {
            Some(b) => b,
            None => value_at(cx, rec, slots(cx, d)[j].target(), (f - 1) as nat),
        } by {
            assert(slot_mark(cx, rec, slots(cx, d)[j]));
        }
        assert(false);
    }
}

/// What a check visits can be checked, is not in the record, and lies no deeper.
pub proof fn lemma_visited(cx: ContextView, rec: Record, d: DefId, e: DefId)
    requires
        ready(cx, rec, d),
        visits(cx, rec, d, e),
    ensures
        ready(cx, rec, e),
        !rec.contains_key(e),
        cx.item(e) is Some,
        depth(cx, rec, e) <= depth(cx, rec, d),
    decreases depth(cx, rec, d),
{
    lemma_visits(cx, rec, d, e);
    lemma_depth(cx, rec, d);
    if e != d {
        let i = choose|i: int|
            0 <= i < slots(cx, d).len() && (#[trigger] slots(cx, d)[i]).open() && visits(
                cx,
                rec,
                slots(cx, d)[i].target(),
                e,
            );
        lemma_step_down(cx, rec, d, i);
        lemma_visited(cx, rec, slots(cx, d)[i].target(), e);
    }
}

pub proof fn lemma_visits_transitive(
    cx: ContextView,
    rec: Record,
    d: DefId,
    e: DefId,
    x: DefId,
)
    requires
        ready(cx, rec, d),
        visits(cx, rec, d, e),
        visits(cx, rec, e, x),
    ensures
        visits(cx, rec, d, x),
    decreases depth(cx, rec, d),
{
    lemma_visits(cx, rec, d, e);
    lemma_visits(cx, rec, d, x);
    if e != d {
        let i = choose|i: int|
            0 <= i < slots(cx, d).len() && (#[trigger] slots(cx, d)[i]).open() && visits(
                cx,
                rec,
                slots(cx, d)[i].target(),
                e,
            );
        lemma_step_down(cx, rec, d, i);
        lemma_visits_transitive(cx, rec, slots(cx, d)[i].target(), e, x);
    }
}

/// The items that an item leads to do not lead back to it.
pub proof fn lemma_no_way_back(cx: ContextView, rec: Record, d: DefId, i: int)
    requires
        ready(cx, rec, d),
        !rec.contains_key(d),
        0 <= i < slots(cx, d).len(),
        slots(cx, d)[i].open(),
    ensures
        !visits(cx, rec, slots(cx, d)[i].target(), d),
{
    lemma_step_down(cx, rec, d, i);
    if visits(cx, rec, slots(cx, d)[i].target(), d) {
        lemma_visited(cx, rec, slots(cx, d)[i].target(), d);
    }
}

/// What a check of `d` visits.
pub open spec fn visited(cx: ContextView, rec: Record, d: DefId) -> Set<DefId> {
    Set::new(|e: DefId| visits(cx, rec, d, e))
}

/// Whether all that the items of `done` lead to is in the record or in `done`.
pub open spec fn closed_under(cx: ContextView, rec: Record, done: Set<DefId>) -> bool {
    forall|e: DefId| #[trigger]
        done.contains(e) ==> {
            &&& !rec.contains_key(e)
            &&& ready(cx, rec, e)
            &&& forall|i: int|
                0 <= i < slots(cx, e).len() && (#[trigger] slots(cx, e)[i]).open()
                    ==> rec.contains_key(slots(cx, e)[i].target()) || done.contains(
                    slots(cx, e)[i].target(),
                )
        }
}

/// The node `e` once the items of `done` have been visited.
pub open spec fn stage_node(
    cx0: ContextView,
    rec0: Record,
    done: Set<DefId>,
    e: int,
) -> NodeView {
    if e <= DefId::MAX && done.contains(e as DefId) {
        marked_node(cx0, rec0, e as DefId)
    } else {
        cx0.nodes[e]
    }
}

/// The record once the items of `done` have been visited.
pub open spec fn stage_record(cx0: ContextView, rec0: Record, done: Set<DefId>) -> Record {
    Map::new(
        |e: DefId| rec0.contains_key(e) || (done.contains(e) && recorded(cx0, e)),
        |e: DefId| scalar_value(cx0, rec0, e),
    )
}

/// Whether `cx` and `rec` are what a check that began with `cx0` and `rec0` has
/// made of them once it has visited the items of `done`, while it is still at
/// work on the item `busy`.
pub open spec fn stage(
    cx0: ContextView,
    rec0: Record,
    done: Set<DefId>,
    busy: DefId,
    cx: ContextView,
    rec: Record,
) -> bool {
    &&& cx == ContextView { nodes: cx.nodes, ..cx0 }
    &&& cx.nodes.len() == cx0.nodes.len()
    &&& cx0.knows(busy)
    &&& cx.nodes[busy as int] == NodeView {
        item: cx.nodes[busy as int].item,
        ..cx0.nodes[busy as int]
    }
    &&& forall|e: int|
        0 <= e < cx0.nodes.len() && e != busy ==> #[trigger] cx.nodes[e] == stage_node(
            cx0,
            rec0,
            done,
            e,
        )
    &&& rec == stage_record(cx0, rec0, done)
    &&& !done.contains(busy)
    &&& closed_under(cx0, rec0, done)
}

proof fn lemma_closed(cx: ContextView, rec: Record, done: Set<DefId>, t: DefId, e: DefId)
    requires
        closed_under(cx, rec, done),
        done.contains(t),
        visits(cx, rec, t, e),
    ensures
        done.contains(e),
    decreases depth(cx, rec, t),
{
    lemma_visits(cx, rec, t, e);
    if e != t {
        let i = choose|i: int|
            0 <= i < slots(cx, t).len() && (#[trigger] slots(cx, t)[i]).open() && visits(
                cx,
                rec,
                slots(cx, t)[i].target(),
                e,
            );
        lemma_step_down(cx, rec, t, i);
        lemma_visits(cx, rec, slots(cx, t)[i].target(), e);
        lemma_closed(cx, rec, done, slots(cx, t)[i].target(), e);
    }
}

/// Adjustments are the same at every stage, and so are the places of the items
/// that the check has not finished.
proof fn lemma_stage_slots(
    cx0: ContextView,
    rec0: Record,
    done: Set<DefId>,
    busy: DefId,
    cx: ContextView,
    rec: Record,
    t: DefId,
)
    requires
        stage(cx0, rec0, done, busy, cx, rec),
        t != busy,
        !rec.contains_key(t),
    ensures
        forall|did: DefId| #[trigger] cx.adjust(did) == cx0.adjust(did),
        cx.item(t) == cx0.item(t),
        slots(cx, t) == slots(cx0, t),
{
    assert forall|did: DefId| #[trigger] cx.adjust(did) == cx0.adjust(did) by {
        if cx0.knows(did) && did != busy {
            assert(cx.nodes[did as int] == stage_node(cx0, rec0, done, did as int));
        }
    }
    if cx0.knows(t) {
        assert(cx.nodes[t as int] == stage_node(cx0, rec0, done, t as int));
        if done.contains(t) {
            lemma_depth(cx0, rec0, t);
        }
    }
    if let Some(ItemView::Message(m)) = cx0.item(t) {
        assert(slots(cx, t) =~= slots(cx0, t)) by {
            assert forall|i: int| 0 <= i < m.fields.len() implies slots(cx, t)[i] == slots(
                cx0,
                t,
            )[i] by {
                assert(cx.adjust(m.fields[i].did) == cx0.adjust(m.fields[i].did));
            }
        }
    }
}

/// At every stage a check of an item that does not lead to the one at work finds
/// the same, and visits the same items but for some that are done.
pub proof fn lemma_stage_stable(
    cx0: ContextView,
    rec0: Record,
    done: Set<DefId>,
    busy: DefId,
    cx: ContextView,
    rec: Record,
    t: DefId,
)
    requires
        stage(cx0, rec0, done, busy, cx, rec),
        ready(cx0, rec0, t),
        !visits(cx0, rec0, t, busy),
    ensures
        ready_at(cx, rec, t, depth(cx0, rec0, t)),
        ready(cx, rec, t),
        scalar_value(cx, rec, t) == scalar_value(cx0, rec0, t),
        forall|e: DefId|
            #[trigger] visits(cx, rec, t, e) ==> visits(cx0, rec0, t, e),
        forall|e: DefId|
            #[trigger] visits(cx0, rec0, t, e) ==> visits(cx, rec, t, e) || done.contains(e),
    decreases depth(cx0, rec0, t),
{
    lemma_depth(cx0, rec0, t);
    if rec.contains_key(t) {
        assert(ready_at(cx, rec, t, depth(cx0, rec0, t)));
        assert forall|e: DefId| #[trigger] visits(cx0, rec0, t, e) implies done.contains(e) by {
            lemma_visits(cx0, rec0, t, e);
            lemma_closed(cx0, rec0, done, t, e);
        }
    } else {
        lemma_visits(cx0, rec0, t, busy);
        lemma_stage_slots(cx0, rec0, done, busy, cx, rec, t);
        let n = slots(cx0, t).len();
        assert forall|i: int|
            0 <= i < n && (#[trigger] slots(cx0, t)[i]).open() implies {
            let u = slots(cx0, t)[i].target();
            &&& ready_at(cx, rec, u, (depth(cx0, rec0, t) - 1) as nat)
            &&& scalar_value(cx, rec, u) == scalar_value(cx0, rec0, u)
            &&& forall|e: DefId| #[trigger] visits(cx, rec, u, e) ==> visits(cx0, rec0, u, e)
            &&& forall|e: DefId| #[trigger]
                visits(cx0, rec0, u, e) ==> visits(cx, rec, u, e) || done.contains(e)
        } by {
            let u = slots(cx0, t)[i].target();
            lemma_step_down(cx0, rec0, t, i);
            lemma_stage_stable(cx0, rec0, done, busy, cx, rec, u);
            lemma_ready_monotone(
                cx,
                rec,
                u,
                depth(cx0, rec0, u),
                (depth(cx0, rec0, t) - 1) as nat,
            );
        }
        assert(ready_at(cx, rec, t, depth(cx0, rec0, t)));
        assert forall|e: DefId| #[trigger] visits(cx, rec, t, e) implies visits(
            cx0,
            rec0,
            t,
            e,
        ) by {
            lemma_visits(cx, rec, t, e);
            lemma_visits(cx0, rec0, t, e);
        }
        assert forall|e: DefId| #[trigger] visits(cx0, rec0, t, e) implies visits(cx, rec, t, e)
            || done.contains(e) by {
            lemma_visits(cx, rec, t, e);
            lemma_visits(cx0, rec0, t, e);
        }
        if let Some(ItemView::Service(s)) = cx0.item(t) {
            lemma_service_value(cx, rec, t);
            lemma_service_value(cx0, rec0, t);
            lemma_service_slots_by_value(s.methods);
            assert forall|j: int| #[trigger] in_tail(slots(cx0, t), j) implies slot_mark(
                cx,
                rec,
                slots(cx0, t)[j],
            ) == slot_mark(cx0, rec0, slots(cx0, t)[j]) by {
                if slots(cx0, t)[j].ty.in_stack is None {
                    assert(slots(cx0, t)[j].open());
                }
            }
            if scalar_value(cx0, rec0, t) {
                assert forall|j: int| #[trigger] in_tail(slots(cx, t), j) implies slot_mark(
                    cx,
                    rec,
                    slots(cx, t)[j],
                ) by {}
            }
            if scalar_value(cx, rec, t) {
                assert forall|j: int| #[trigger] in_tail(slots(cx0, t), j) implies slot_mark(
                    cx0,
                    rec0,
                    slots(cx0, t)[j],
                ) by {}
            }
        }
    }
}

/// Where the places of a method stand among those of all methods.
pub proof fn lemma_service_slot_at(methods: Seq<MethodView>, i: int, a: int)
    requires
        0 <= i < methods.len(),
        0 <= a <= methods[i].args.len(),
    ensures
        ({
            let k = service_slots(methods.take(i)).len() + a;
            &&& 0 <= k < service_slots(methods).len()
            &&& service_slots(methods)[k] == method_slots(methods[i])[a]
            &&& service_slots(methods).take(k) == service_slots(methods.take(i)) + method_slots(
                methods[i],
            ).take(a)
        }),
    decreases methods.len(),
{
    let k = service_slots(methods.take(i)).len() + a;
    let front = service_slots(methods.drop_last());
    let back = method_slots(methods.last());
    if i == methods.len() - 1 {
        assert(methods.take(i) =~= methods.drop_last());
        assert((front + back).take(k) =~= front + back.take(a));
    } else {
        lemma_service_slot_at(methods.drop_last(), i, a);
        assert(methods.drop_last().take(i) =~= methods.take(i));
        assert(methods.drop_last()[i] == methods[i]);
        assert((front + back)[k] == front[k]);
        assert((front + back).take(k) =~= front.take(k));
    }
}

/// Visiting an item has the same outcome at every stage.
proof fn lemma_stage_marked(
    cx0: ContextView,
    rec0: Record,
    done: Set<DefId>,
    busy: DefId,
    cx: ContextView,
    rec: Record,
    e: DefId,
)
    requires
        stage(cx0, rec0, done, busy, cx, rec),
        ready(cx0, rec0, e),
        !rec0.contains_key(e),
        !rec.contains_key(e),
        !visits(cx0, rec0, e, busy),
    ensures
        marked_node(cx, rec, e) == marked_node(cx0, rec0, e),
{
    lemma_depth(cx0, rec0, e);
    lemma_visits(cx0, rec0, e, busy);
    lemma_stage_slots(cx0, rec0, done, busy, cx, rec, e);
    lemma_stage_stable(cx0, rec0, done, busy, cx, rec, e);
    assert forall|i: int|
        0 <= i < slots(cx0, e).len() && (#[trigger] slots(cx0, e)[i]).open() implies scalar_value(
        cx,
        rec,
        slots(cx0, e)[i].target(),
    ) == scalar_value(cx0, rec0, slots(cx0, e)[i].target()) by {
        lemma_step_down(cx0, rec0, e, i);
        lemma_stage_stable(cx0, rec0, done, busy, cx, rec, slots(cx0, e)[i].target());
    }
    match cx0.item(e)->0 {
        ItemView::Message(m) => {
            assert forall|i: int| 0 <= i < m.fields.len() implies slot_mark(
                cx,
                rec,
                field_slot(cx, m.fields[i]),
            ) == slot_mark(cx0, rec0, field_slot(cx0, m.fields[i])) by {
                assert(slots(cx, e)[i] == field_slot(cx, m.fields[i]));
                assert(slots(cx0, e)[i] == field_slot(cx0, m.fields[i]));
            }
            assert(marked_item(cx, rec, e)->Message_0.fields =~= marked_item(
                cx0,
                rec0,
                e,
            )->Message_0.fields);
        },
        ItemView::Service(s) => {
            assert forall|i: int| 0 <= i < s.methods.len() implies marked_method(
                cx,
                rec,
                s.methods[i],
            ) == marked_method(cx0, rec0, s.methods[i]) by {
                let m = s.methods[i];
                assert forall|a: int| 0 <= a <= m.args.len() implies slot_mark(
                    cx,
                    rec,
                    method_slots(m)[a],
                ) == slot_mark(cx0, rec0, #[trigger] method_slots(m)[a]) by {
                    lemma_service_slot_at(s.methods, i, a);
                }
                assert forall|a: int| 0 <= a < m.args.len() implies marked_method(
                    cx,
                    rec,
                    m,
                ).args[a] == marked_method(cx0, rec0, m).args[a] by {
                    assert(method_slots(m)[a] == crate::scalar::method_slot(m.args[a]));
                }
                assert(marked_method(cx, rec, m).args =~= marked_method(cx0, rec0, m).args);
                assert(method_slots(m)[m.args.len() as int] == crate::scalar::method_slot(m.ret));
            }
            assert(marked_item(cx, rec, e)->Service_0.methods =~= marked_item(
                cx0,
                rec0,
                e,
            )->Service_0.methods);
        },
        _ => {},
    }
    if cx0.knows(e) && e != busy {
        assert(cx.nodes[e as int] == stage_node(cx0, rec0, done, e as int));
    }
}

/// A check of an item that does not lead to the one at work takes the check to
/// the next stage.
pub proof fn lemma_stage_step(
    cx0: ContextView,
    rec0: Record,
    done: Set<DefId>,
    busy: DefId,
    cx: ContextView,
    rec: Record,
    t: DefId,
)
    requires
        stage(cx0, rec0, done, busy, cx, rec),
        ready(cx0, rec0, t),
        !visits(cx0, rec0, t, busy),
    ensures
        stage(
            cx0,
            rec0,
            done.union(visited(cx0, rec0, t)),
            busy,
            checked(cx, rec, t),
            record_after(cx, rec, t),
        ),
        checked(cx, rec, t).nodes[busy as int] == cx.nodes[busy as int],
{
    let both = done.union(visited(cx0, rec0, t));
    lemma_stage_stable(cx0, rec0, done, busy, cx, rec, t);
    assert(closed_under(cx0, rec0, both)) by {
        assert forall|e: DefId| #[trigger] both.contains(e) implies {
            &&& !rec0.contains_key(e)
            &&& ready(cx0, rec0, e)
            &&& forall|i: int|
                0 <= i < slots(cx0, e).len() && (#[trigger] slots(cx0, e)[i]).open()
                    ==> rec0.contains_key(slots(cx0, e)[i].target()) || both.contains(
                    slots(cx0, e)[i].target(),
                )
        } by {
            if !done.contains(e) {
                lemma_visited(cx0, rec0, t, e);
                assert forall|i: int|
                    0 <= i < slots(cx0, e).len() && (#[trigger] slots(cx0, e)[i]).open()
                        && !rec0.contains_key(slots(cx0, e)[i].target()) implies both.contains(
                    slots(cx0, e)[i].target(),
                ) by {
                    let u = slots(cx0, e)[i].target();
                    lemma_step_down(cx0, rec0, e, i);
                    lemma_visits(cx0, rec0, u, u);
                    lemma_visits(cx0, rec0, e, u);
                    lemma_visits_transitive(cx0, rec0, t, e, u);
                }
            }
        }
    }
    let cx1 = checked(cx, rec, t);
    assert forall|e: int| 0 <= e < cx0.nodes.len() && e != busy implies #[trigger] cx1.nodes[e]
        == stage_node(cx0, rec0, both, e) by {
        if e <= DefId::MAX {
            let d = e as DefId;
            assert(cx.nodes[e] == stage_node(cx0, rec0, done, e));
            if visits(cx, rec, t, d) {
                lemma_visited(cx, rec, t, d);
                lemma_visited(cx0, rec0, t, d);
                if visits(cx0, rec0, d, busy) {
                    lemma_visits_transitive(cx0, rec0, t, d, busy);
                }
                lemma_stage_marked(cx0, rec0, done, busy, cx, rec, d);
            }
        } else {
            assert(cx.nodes[e] == stage_node(cx0, rec0, done, e));
        }
    }
    let rec1 = record_after(cx, rec, t);
    assert forall|e: DefId| #[trigger] rec1.contains_key(e) == stage_record(
        cx0,
        rec0,
        both,
    ).contains_key(e) by {
        if visits(cx, rec, t, e) {
            lemma_visited(cx, rec, t, e);
            lemma_visits(cx0, rec0, t, busy);
            lemma_stage_slots(cx0, rec0, done, busy, cx, rec, e);
        } else if visits(cx0, rec0, t, e) {
            assert(done.contains(e));
        }
    }
    assert forall|e: DefId| #[trigger] rec1.contains_key(e) implies rec1[e] == stage_record(
        cx0,
        rec0,
        both,
    )[e] by {
        if rec.contains_key(e) {
            assert(scalar_value(cx, rec, e) == rec[e]);
        } else {
            lemma_visited(cx0, rec0, t, e);
            if visits(cx0, rec0, e, busy) {
                lemma_visits_transitive(cx0, rec0, t, e, busy);
            }
            lemma_stage_stable(cx0, rec0, done, busy, cx, rec, e);
        }
    }
    assert(rec1 =~= stage_record(cx0, rec0, both));
}

/// What the check of an item visits by way of the first of its places, `pre`.
pub open spec fn reached(cx: ContextView, rec: Record, pre: Seq<Slot>) -> Set<DefId> {
    Set::new(
        |e: DefId|
            exists|j: int|
                0 <= j < pre.len() && (#[trigger] pre[j]).open() && visits(
                    cx,
                    rec,
                    pre[j].target(),
                    e,
                ),
    )
}

pub proof fn lemma_reached_push(cx: ContextView, rec: Record, pre: Seq<Slot>, s: Slot)
    ensures
        reached(cx, rec, pre.push(s)) == if s.open() {
            reached(cx, rec, pre).union(visited(cx, rec, s.target()))
        } else {
            reached(cx, rec, pre)
        },
{
    let more = pre.push(s);
    assert forall|e: DefId| #[trigger] reached(cx, rec, more).contains(e) == (reached(
        cx,
        rec,
        pre,
    ).contains(e) || (s.open() && visits(cx, rec, s.target(), e))) by {
        if reached(cx, rec, pre).contains(e) {
            let j = choose|j: int|
                0 <= j < pre.len() && (#[trigger] pre[j]).open() && visits(
                    cx,
                    rec,
                    pre[j].target(),
                    e,
                );
            assert(more[j] == pre[j]);
        }
        if s.open() && visits(cx, rec, s.target(), e) {
            assert(more[pre.len() as int] == s);
        }
        if reached(cx, rec, more).contains(e) {
            let j = choose|j: int|
                0 <= j < more.len() && (#[trigger] more[j]).open() && visits(
                    cx,
                    rec,
                    more[j].target(),
                    e,
                );
            if j < pre.len() {
                assert(more[j] == pre[j]);
            }
        }
    }
    assert(reached(cx, rec, more) =~= if s.open() {
        reached(cx, rec, pre).union(visited(cx, rec, s.target()))
    } else {
        reached(cx, rec, pre)
    });
}

/// A check begins at the stage at which nothing has been visited.
pub proof fn lemma_stage_start(cx: ContextView, rec: Record, d: DefId)
    requires
        cx.knows(d),
    ensures
        stage(cx, rec, reached(cx, rec, Seq::empty()), d, cx, rec),
{
    let none = reached(cx, rec, Seq::empty());
    assert(none =~= Set::empty());
    assert(rec =~= stage_record(cx, rec, none));
}

/// A check ends at the stage at which all places of the item have been followed
/// and the item itself has been marked.
pub proof fn lemma_stage_end(
    cx0: ContextView,
    rec0: Record,
    d: DefId,
    cx: ContextView,
    rec: Record,
)
    requires
        ready(cx0, rec0, d),
        !rec0.contains_key(d),
        recorded(cx0, d),
        stage(cx0, rec0, reached(cx0, rec0, slots(cx0, d)), d, cx, rec),
        cx.nodes[d as int] == marked_node(cx0, rec0, d),
    ensures
        cx == checked(cx0, rec0, d),
        rec.insert(d, scalar_value(cx0, rec0, d)) == record_after(cx0, rec0, d),
{
    let done = reached(cx0, rec0, slots(cx0, d));
    assert forall|e: DefId| #[trigger] visits(cx0, rec0, d, e) == (e == d || done.contains(e)) by {
        lemma_visits(cx0, rec0, d, e);
    }
    assert forall|e: int| 0 <= e < cx0.nodes.len() implies cx.nodes[e] == #[trigger] checked(
        cx0,
        rec0,
        d,
    ).nodes[e] by {
        if e != d {
            assert(cx.nodes[e] == stage_node(cx0, rec0, done, e));
        }
    }
    assert(cx.nodes =~= checked(cx0, rec0, d).nodes);
    assert(rec.insert(d, scalar_value(cx0, rec0, d)) =~= record_after(cx0, rec0, d));
}

/// Whether the places of `pre` that no marked place follows are on the stack.
pub open spec fn tail_value(cx: ContextView, rec: Record, pre: Seq<Slot>) -> bool {
    forall|j: int| #[trigger] in_tail(pre, j) ==> slot_mark(cx, rec, pre[j])
}

pub proof fn lemma_tail_push(cx: ContextView, rec: Record, pre: Seq<Slot>, s: Slot)
    requires
        !s.by_ptr,
    ensures
        tail_value(cx, rec, pre.push(s)) == match s.ty.in_stack {
            Some(b) => b,
            None => tail_value(cx, rec, pre) && scalar_value(cx, rec, s.target()),
        },
{
    let more = pre.push(s);
    let n = pre.len() as int;
    assert(more[n] == s);
    assert(in_tail(more, n));
    if s.ty.in_stack is Some {
        assert forall|j: int| #[trigger] in_tail(more, j) implies j == n by {
            if j < n {
                assert(more[n].ty.in_stack is None);
            }
        }
    } else {
        assert forall|j: int| 0 <= j < n implies in_tail(more, j) == in_tail(pre, j) by {
            if in_tail(more, j) {
                assert forall|k: int| j < k < n implies (#[trigger] pre[k]).ty.in_stack is None by {
                    assert(more[k].ty.in_stack is None);
                }
            }
            if in_tail(pre, j) {
                assert forall|k: int| j < k < more.len() implies (
                #[trigger] more[k]).ty.in_stack is None by {
                    if k < n {
                        assert(pre[k].ty.in_stack is None);
                    }
                }
            }
        }
        if tail_value(cx, rec, more) {
            assert forall|j: int| #[trigger] in_tail(pre, j) implies slot_mark(cx, rec, pre[j]) by {
                assert(in_tail(more, j));
                assert(more[j] == pre[j]);
            }
            assert(slot_mark(cx, rec, more[n]));
        }
        if tail_value(cx, rec, pre) && scalar_value(cx, rec, s.target()) {
            assert forall|j: int| #[trigger] in_tail(more, j) implies slot_mark(
                cx,
                rec,
                more[j],
            ) by {
                if j < n {
                    assert(in_tail(pre, j));
                    assert(more[j] == pre[j]);
                }
            }
        }
    }
}

/// At every stage a check of what one of the item's unmarked types names can be
/// made, finds what it would have found at the start, and leads to the next stage.
pub proof fn lemma_stage_follow(
    cx0: ContextView,
    rec0: Record,
    d: DefId,
    k: int,
    cx: ContextView,
    rec: Record,
)
    requires
        ready(cx0, rec0, d),
        !rec0.contains_key(d),
        0 <= k < slots(cx0, d).len(),
        slots(cx0, d)[k].open(),
        stage(cx0, rec0, reached(cx0, rec0, slots(cx0, d).take(k)), d, cx, rec),
    ensures
        slots(cx0, d)[k].ty.kind is Path,
        ({
            let t = slots(cx0, d)[k].target();
            &&& ready(cx, rec, t)
            &&& depth(cx, rec, t) < depth(cx0, rec0, d)
            &&& scalar_value(cx, rec, t) == scalar_value(cx0, rec0, t)
            &&& stage(
                cx0,
                rec0,
                reached(cx0, rec0, slots(cx0, d).take(k + 1)),
                d,
                checked(cx, rec, t),
                record_after(cx, rec, t),
            )
            &&& checked(cx, rec, t).nodes[d as int] == cx.nodes[d as int]
        }),
{
    let pre = slots(cx0, d).take(k);
    let t = slots(cx0, d)[k].target();
    lemma_step_down(cx0, rec0, d, k);
    lemma_no_way_back(cx0, rec0, d, k);
    lemma_stage_stable(cx0, rec0, reached(cx0, rec0, pre), d, cx, rec, t);
    lemma_depth_least(cx, rec, t, depth(cx0, rec0, t));
    lemma_stage_step(cx0, rec0, reached(cx0, rec0, pre), d, cx, rec, t);
    lemma_reached_push(cx0, rec0, pre, slots(cx0, d)[k]);
    assert(slots(cx0, d).take(k + 1) =~= pre.push(slots(cx0, d)[k]));
}

/// A place that needs no check leaves the stage as it is.
pub proof fn lemma_stage_skip(
    cx0: ContextView,
    rec0: Record,
    d: DefId,
    k: int,
)
    requires
        0 <= k < slots(cx0, d).len(),
        !slots(cx0, d)[k].open(),
    ensures
        reached(cx0, rec0, slots(cx0, d).take(k + 1)) == reached(
            cx0,
            rec0,
            slots(cx0, d).take(k),
        ),
{
    let pre = slots(cx0, d).take(k);
    lemma_reached_push(cx0, rec0, pre, slots(cx0, d)[k]);
    assert(slots(cx0, d).take(k + 1) =~= pre.push(slots(cx0, d)[k]));
}

/// Adjustments are the same at every stage.
pub proof fn lemma_stage_adjust(
    cx0: ContextView,
    rec0: Record,
    done: Set<DefId>,
    busy: DefId,
    cx: ContextView,
    rec: Record,
)
    requires
        stage(cx0, rec0, done, busy, cx, rec),
    ensures
        forall|did: DefId| #[trigger] cx.adjust(did) == cx0.adjust(did),
{
    assert forall|did: DefId| #[trigger] cx.adjust(did) == cx0.adjust(did) by {
        if cx0.knows(did) && did != busy {
            assert(cx.nodes[did as int] == stage_node(cx0, rec0, done, did as int));
        }
    }
}

/// The stage does not depend on the item at work.
pub proof fn lemma_stage_with_item(
    cx0: ContextView,
    rec0: Record,
    done: Set<DefId>,
    busy: DefId,
    cx: ContextView,
    rec: Record,
    item: ItemView,
)
    requires
        stage(cx0, rec0, done, busy, cx, rec),
    ensures
        stage(cx0, rec0, done, busy, cx.with_item(busy, item), rec),
{
    let cx1 = cx.with_item(busy, item);
    assert forall|e: int| 0 <= e < cx0.nodes.len() && e != busy implies #[trigger] cx1.nodes[e]
        == stage_node(cx0, rec0, done, e) by {
        assert(cx1.nodes[e] == cx.nodes[e]);
    }
}

/// Nothing but items differs between a context and what a check makes of it,
/// and an item that was visited differs in its marks alone.
pub proof fn lemma_checked_frame(cx: ContextView, rec: Record, d: DefId, e: DefId)
    requires
        ready(cx, rec, d),
    ensures
        checked(cx, rec, d).knows(e) == cx.knows(e),
        checked(cx, rec, d).adjust(e) == cx.adjust(e),
        checked(cx, rec, d).node_tags(e) == cx.node_tags(e),
        cx.knows(e) ==> checked(cx, rec, d).nodes[e as int] == (NodeView {
            item: checked(cx, rec, d).nodes[e as int].item,
            ..cx.nodes[e as int]
        }),
        checked(cx, rec, d).item(e) == if visits(cx, rec, d, e) {
            Some(marked_item(cx, rec, e))
        } else {
            cx.item(e)
        },
{
    if visits(cx, rec, d, e) {
        lemma_visited(cx, rec, d, e);
    }
}

proof fn lemma_marked_methods_set(cx: ContextView, rec: Record, methods: Seq<MethodView>)
    ensures
        forall|i: int|
            0 <= i < service_slots(marked_methods(cx, rec, methods)).len() ==> (
            #[trigger] service_slots(marked_methods(cx, rec, methods))[i]).ty.in_stack is Some,
    decreases methods.len(),
{
    let marked = marked_methods(cx, rec, methods);
    if methods.len() > 0 {
        let less = methods.drop_last();
        lemma_marked_methods_set(cx, rec, less);
        assert(marked_methods(cx, rec, less) =~= marked.drop_last());
        let front = service_slots(marked.drop_last());
        let back = method_slots(marked.last());
        assert forall|i: int| 0 <= i < service_slots(marked).len() implies (
        #[trigger] service_slots(marked)[i]).ty.in_stack is Some by {
            if i < front.len() {
                assert((front + back)[i] == front[i]);
            } else {
                assert((front + back)[i] == back[i - front.len()]);
            }
        }
    }
}

/// An item that has been visited has no unmarked place left.
pub proof fn lemma_marked_slots_set(cx: ContextView, rec: Record, d: DefId, e: DefId)
    requires
        ready(cx, rec, d),
        visits(cx, rec, d, e),
    ensures
        forall|i: int|
            0 <= i < slots(checked(cx, rec, d), e).len() ==> (#[trigger] slots(
                checked(cx, rec, d),
                e,
            )[i]).ty.in_stack is Some,
{
    lemma_visited(cx, rec, d, e);
    lemma_checked_frame(cx, rec, d, e);
    if let Some(ItemView::Service(s)) = cx.item(e) {
        lemma_marked_methods_set(cx, rec, s.methods);
    }
}

/// What could be checked before a check can be checked after it.
pub proof fn lemma_ready_after(
    cx: ContextView,
    rec: Record,
    d: DefId,
    rec1: Record,
    e: DefId,
    f: nat,
)
    requires
        ready(cx, rec, d),
        ready_at(cx, rec1, e, f),
    ensures
        ready_at(checked(cx, rec, d), rec1, e, f),
    decreases f,
{
    let cx1 = checked(cx, rec, d);
    if !rec1.contains_key(e) {
        lemma_checked_frame(cx, rec, d, e);
        if visits(cx, rec, d, e) {
            lemma_marked_slots_set(cx, rec, d, e);
        } else {
            assert(slots(cx1, e) =~= slots(cx, e)) by {
                if let Some(ItemView::Message(m)) = cx.item(e) {
                    assert forall|i: int| 0 <= i < m.fields.len() implies slots(cx1, e)[i]
                        == slots(cx, e)[i] by {
                        lemma_checked_frame(cx, rec, d, m.fields[i].did);
                    }
                }
            }
            assert forall|i: int|
                0 <= i < slots(cx1, e).len() && (#[trigger] slots(cx1, e)[i]).open() implies {
                &&& slots(cx1, e)[i].ty.kind is Path
                &&& ready_at(cx1, rec1, slots(cx1, e)[i].target(), (f - 1) as nat)
            } by {
                assert(slots(cx, e)[i].open());
                lemma_ready_after(
                    cx,
                    rec,
                    d,
                    rec1,
                    slots(cx, e)[i].target(),
                    (f - 1) as nat,
                );
            }
        }
    }
}

} // verus!
