//! Which values lie wholly on the stack.
//!
//! A check starts at one item and follows the types that are still unmarked to
//! the items that they name. It marks what it passes and keeps a record of the
//! items that it has settled, so that it visits none of those twice.
use crate::context::{Adjust, AdjustView, Context, ContextView, NodeView};
use crate::rir::{
    DefId, Field, FieldView, Item, ItemView, MessageView, MethodView, ServiceView, TyKind, TyView,
};
use crate::scalar_lemmas::{
    lemma_depth, lemma_service_slot_at, lemma_service_slots_by_value, lemma_service_value,
    lemma_stage_adjust, lemma_stage_end, lemma_stage_follow, lemma_stage_skip, lemma_stage_start,
    lemma_stage_with_item, lemma_tail_push, lemma_visits, reached, stage, tail_value,
};
use std::collections::HashMap;
use vstd::prelude::*;

verus! {

/// The items that have been settled, and how.
pub type Record = Map<DefId, bool>;

/// Whether a field is held by pointer.
pub open spec fn raw_ptr_field(f: FieldView, adjust: Option<AdjustView>) -> bool {
    f.kind is Optional || (adjust matches Some(a) && a.boxed)
}

/// Whether a field is held by pointer: because it may be absent, or because it
/// is boxed.
pub fn is_raw_ptr_field(f: &Field, adjust: Option<&Adjust>) -> (b: bool)
    ensures
        b == raw_ptr_field(
            f@,
            match adjust {
                Some(a) => Some(a@),
                None => None,
            },
        ),
        b <==> f.kind is Optional || (adjust is Some && adjust->0.boxed),
{
    f.is_optional() || match adjust {
        Some(adjust) => adjust.boxed(),
        None => false,
    }
}

/// A place in an item that holds a type.
pub struct Slot {
    /// The value is held by pointer, whatever its type.
    pub by_ptr: bool,
    pub ty: TyView,
}

impl Slot {
    /// Whether the check has to find out about the type in this place.
    pub open spec fn open(self) -> bool {
        !self.by_ptr && self.ty.in_stack is None
    }

    /// The item that the type names.
    pub open spec fn target(self) -> DefId {
        self.ty.kind->Path_0.did
    }
}

/// The place that a field is.
pub open spec fn field_slot(cx: ContextView, f: FieldView) -> Slot {
    Slot { by_ptr: raw_ptr_field(f, cx.adjust(f.did)), ty: f.ty }
}

/// The place that an argument or a returned value is.
pub open spec fn method_slot(ty: TyView) -> Slot {
    Slot { by_ptr: false, ty }
}

/// The places of a method: its arguments, then what it returns.
pub open spec fn method_slots(m: MethodView) -> Seq<Slot> {
    Seq::new(m.args.len(), |i: int| method_slot(m.args[i])).push(method_slot(m.ret))
}

/// The places of a sequence of methods.
pub open spec fn service_slots(methods: Seq<MethodView>) -> Seq<Slot>
    decreases methods.len(),
{
    if methods.len() == 0 {
        Seq::empty()
    } else {
        service_slots(methods.drop_last()) + method_slots(methods.last())
    }
}

/// The places of an item that a check looks at, in order.
pub open spec fn slots(cx: ContextView, d: DefId) -> Seq<Slot> {
    match cx.item(d) {
        Some(ItemView::Message(m)) => Seq::new(
            m.fields.len(),
            |i: int| field_slot(cx, m.fields[i]),
        ),
        Some(ItemView::Service(s)) => service_slots(s.methods),
        _ => Seq::empty(),
    }
}

/// Whether a check of `d` comes to an end within `fuel` steps down: each item
/// on the way exists, and each unmarked type on the way names an item.
pub open spec fn ready_at(cx: ContextView, rec: Record, d: DefId, fuel: nat) -> bool
    decreases fuel,
{
    ||| rec.contains_key(d)
    ||| {
        &&& fuel > 0
        &&& cx.item(d) is Some
        &&& forall|i: int|
            0 <= i < slots(cx, d).len() && (#[trigger] slots(cx, d)[i]).open() ==> {
                &&& slots(cx, d)[i].ty.kind is Path
                &&& ready_at(cx, rec, slots(cx, d)[i].target(), (fuel - 1) as nat)
            }
    }
}

/// Whether `d` can be checked: nothing on the way is missing, and the way does
/// not lead round in a circle.
pub open spec fn ready(cx: ContextView, rec: Record, d: DefId) -> bool {
    exists|fuel: nat| ready_at(cx, rec, d, fuel)
}

/// Whether `fuel` is the number of steps down that a check of `d` takes.
pub open spec fn is_depth(cx: ContextView, rec: Record, d: DefId, fuel: nat) -> bool {
    &&& ready_at(cx, rec, d, fuel)
    &&& forall|less: nat| less < fuel ==> !ready_at(cx, rec, d, less)
}

/// The number of steps down that a check of `d` takes.
pub open spec fn depth(cx: ContextView, rec: Record, d: DefId) -> nat {
    choose|fuel: nat| is_depth(cx, rec, d, fuel)
}

/// [`visits`], for a check of so many steps down.
pub open spec fn visits_at(
    cx: ContextView,
    rec: Record,
    d: DefId,
    e: DefId,
    fuel: nat,
) -> bool
    decreases fuel,
{
    &&& !rec.contains_key(d)
    &&& {
        ||| e == d
        ||| fuel > 0 && exists|i: int|
            0 <= i < slots(cx, d).len() && (#[trigger] slots(cx, d)[i]).open() && visits_at(
                cx,
                rec,
                slots(cx, d)[i].target(),
                e,
                (fuel - 1) as nat,
            )
    }
}

/// Whether a check of `d` visits `e`: `e` is `d`, or an item that the unmarked
/// types lead to, and no item on the way is in the record.
pub open spec fn visits(cx: ContextView, rec: Record, d: DefId, e: DefId) -> bool {
    visits_at(cx, rec, d, e, depth(cx, rec, d))
}

/// Whether `j` is not followed by a place that was marked before.
pub open spec fn in_tail(slots: Seq<Slot>, j: int) -> bool {
    &&& 0 <= j < slots.len()
    &&& forall|k: int| j < k < slots.len() ==> (#[trigger] slots[k]).ty.in_stack is None
}

/// [`scalar_value`], for a check of so many steps down.
pub open spec fn value_at(cx: ContextView, rec: Record, d: DefId, fuel: nat) -> bool
    decreases fuel,
{
    if rec.contains_key(d) {
        rec[d]
    } else {
        match cx.item(d) {
            Some(ItemView::Message(m)) => {
                &&& m.all_in_stack != Some(false)
                &&& forall|i: int|
                    0 <= i < slots(cx, d).len() ==> !(#[trigger] slots(cx, d)[i]).by_ptr
                        && slots(cx, d)[i].ty.in_stack != Some(false)
            },
            Some(ItemView::Service(_)) => {
                &&& fuel > 0
                &&& forall|j: int| #[trigger]
                    in_tail(slots(cx, d), j) ==> match slots(cx, d)[j].ty.in_stack {
                        Some(b) => b,
                        None => value_at(cx, rec, slots(cx, d)[j].target(), (fuel - 1) as nat),
                    }
            },
            _ => false,
        }
    }
}

/// What a check finds of `d`.
///
/// For an item of the record, what the record says. For a message: it has not
/// been found wanting before, no field is held by pointer and no field is marked
/// as off the stack; fields that were unmarked do not count. For a service: the
/// last place that was marked before, if any, is marked as on the stack, and
/// what the places after it name is found to be. For anything else, `false`.
pub open spec fn scalar_value(cx: ContextView, rec: Record, d: DefId) -> bool {
    value_at(cx, rec, d, depth(cx, rec, d))
}

/// The mark that a place has once its item has been visited.
pub open spec fn slot_mark(cx: ContextView, rec: Record, s: Slot) -> bool {
    if s.by_ptr {
        false
    } else {
        match s.ty.in_stack {
            Some(b) => b,
            None => scalar_value(cx, rec, s.target()),
        }
    }
}

/// A field once its message has been visited.
pub open spec fn marked_field(cx: ContextView, rec: Record, f: FieldView) -> FieldView {
    FieldView { ty: f.ty.with_mark(slot_mark(cx, rec, field_slot(cx, f))), ..f }
}

/// An argument or a returned value once its service has been visited.
pub open spec fn marked_ty(cx: ContextView, rec: Record, ty: TyView) -> TyView {
    ty.with_mark(slot_mark(cx, rec, method_slot(ty)))
}

/// A method once its service has been visited.
pub open spec fn marked_method(cx: ContextView, rec: Record, m: MethodView) -> MethodView {
    MethodView {
        args: Seq::new(m.args.len(), |i: int| marked_ty(cx, rec, m.args[i])),
        ret: marked_ty(cx, rec, m.ret),
        ..m
    }
}

/// Methods once their service has been visited.
pub open spec fn marked_methods(
    cx: ContextView,
    rec: Record,
    methods: Seq<MethodView>,
) -> Seq<MethodView> {
    Seq::new(methods.len(), |i: int| marked_method(cx, rec, methods[i]))
}

/// The item `e` once it has been visited: all its places are marked, and a
/// message says what was found of it.
pub open spec fn marked_item(cx: ContextView, rec: Record, e: DefId) -> ItemView {
    match cx.item(e)->0 {
        ItemView::Message(m) => ItemView::Message(
            MessageView {
                fields: Seq::new(m.fields.len(), |i: int| marked_field(cx, rec, m.fields[i])),
                all_in_stack: Some(scalar_value(cx, rec, e)),
            },
        ),
        ItemView::Service(s) => ItemView::Service(
            ServiceView { methods: marked_methods(cx, rec, s.methods) },
        ),
        other => other,
    }
}

/// The node `e` once it has been visited.
pub open spec fn marked_node(cx: ContextView, rec: Record, e: DefId) -> NodeView {
    NodeView { item: Some(marked_item(cx, rec, e)), ..cx.nodes[e as int] }
}

/// The context after a check of `d`: the items that the check visits are
/// marked, all else is as it was.
pub open spec fn checked(cx: ContextView, rec: Record, d: DefId) -> ContextView {
    ContextView {
        nodes: Seq::new(
            cx.nodes.len(),
            |e: int|
                if e <= DefId::MAX && visits(cx, rec, d, e as DefId) {
                    marked_node(cx, rec, e as DefId)
                } else {
                    cx.nodes[e]
                },
        ),
        ..cx
    }
}

/// Whether a check keeps a record of `e`: it does of messages and services.
pub open spec fn recorded(cx: ContextView, e: DefId) -> bool {
    cx.item(e) matches Some(ItemView::Message(_)) || cx.item(e) matches Some(ItemView::Service(_))
}

/// The record after a check of `d`: what was found of the messages and services
/// that it visits is added.
pub open spec fn record_after(cx: ContextView, rec: Record, d: DefId) -> Record {
    Map::new(
        |e: DefId| rec.contains_key(e) || (visits(cx, rec, d, e) && recorded(cx, e)),
        |e: DefId| scalar_value(cx, rec, e),
    )
}

/// Whether a place rules out that its message lies wholly on the stack.
pub open spec fn off_stack(s: Slot) -> bool {
    s.by_ptr || s.ty.in_stack == Some(false)
}

/// The message `d` once its first `i` fields have been dealt with.
spec fn message_so_far(cx: ContextView, rec: Record, d: DefId, i: int) -> MessageView {
    let m = cx.item(d)->0->Message_0;
    MessageView {
        fields: Seq::new(
            m.fields.len(),
            |j: int|
                if j < i {
                    marked_field(cx, rec, m.fields[j])
                } else {
                    m.fields[j]
                },
        ),
        all_in_stack: if exists|j: int| 0 <= j < i && off_stack(#[trigger] slots(cx, d)[j]) {
            Some(false)
        } else {
            m.all_in_stack
        },
    }
}

/// The service `d` once its first `i` methods and the first `a` arguments of the
/// next have been dealt with.
spec fn service_so_far(cx: ContextView, rec: Record, d: DefId, i: int, a: int) -> ServiceView {
    let s = cx.item(d)->0->Service_0;
    ServiceView {
        methods: Seq::new(
            s.methods.len(),
            |k: int|
                if k < i {
                    marked_method(cx, rec, s.methods[k])
                } else if k == i {
                    MethodView {
                        args: Seq::new(
                            s.methods[k].args.len(),
                            |j: int|
                                if j < a {
                                    marked_ty(cx, rec, s.methods[k].args[j])
                                } else {
                                    s.methods[k].args[j]
                                },
                        ),
                        ..s.methods[k]
                    }
                } else {
                    s.methods[k]
                },
        ),
    }
}

impl Context {
    /// What there is to know of field `i` of a message: whether it is held by
    /// pointer, its mark, and the kind of its type.
    pub(crate) fn message_slot(&self, did: DefId, i: usize) -> (s: (bool, Option<bool>, TyKind))
        requires
            self@.item(did) matches Some(ItemView::Message(m)) && i < m.fields.len(),
        ensures
            ({
                let slot = field_slot(self@, self@.item(did)->0->Message_0.fields[i as int]);
                s == (slot.by_ptr, slot.ty.in_stack, slot.ty.kind)
            }),
    {
        match self.item(did) {
            Some(Item::Message(m)) => {
                let field = &m.fields[i];
                assert(m@.fields[i as int] == field@);
                (
                    is_raw_ptr_field(field, self.adjust(field.did)),
                    field.ty.in_stack,
                    field.ty.kind,
                )
            },
            _ => (false, None, TyKind::Builtin),
        }
    }

    /// The mark and the kind of what method `i` of a service takes as argument
    /// `a`, or of what it returns if it has no such argument.
    pub(crate) fn service_slot(&self, did: DefId, i: usize, a: usize) -> (s: (Option<bool>, TyKind))
        requires
            self@.item(did) matches Some(ItemView::Service(s)) && i < s.methods.len() && a
                <= s.methods[i as int].args.len(),
        ensures
            ({
                let slot = method_slots(self@.item(did)->0->Service_0.methods[i as int])[a as int];
                s == (slot.ty.in_stack, slot.ty.kind)
            }),
    {
        match self.item(did) {
            Some(Item::Service(s)) => {
                let method = &s.methods[i];
                assert(s@.methods[i as int] == method@);
                if a < method.args.len() {
                    let ty = &method.args[a].ty;
                    assert(method@.args[a as int] == ty@);
                    (ty.in_stack, ty.kind)
                } else {
                    (method.ret.in_stack, method.ret.kind)
                }
            },
            _ => (None, TyKind::Builtin),
        }
    }

    /// The number of arguments of method `i` of a service.
    pub(crate) fn arg_count(&self, did: DefId, i: usize) -> (n: usize)
        requires
            self@.item(did) matches Some(ItemView::Service(s)) && i < s.methods.len(),
        ensures
            n == self@.item(did)->0->Service_0.methods[i as int].args.len(),
    {
        match self.item(did) {
            Some(Item::Service(s)) => {
                assert(s@.methods[i as int] == s.methods@[i as int]@);
                s.methods[i].args.len()
            },
            _ => 0,
        }
    }

    /// Finds out whether values of the item lie wholly on the stack, and marks
    /// the types on the way to the answer.
    pub fn check_scalar_ty(&mut self, def_id: DefId, record: &mut HashMap<DefId, bool>) -> (scalar:
        bool)
        requires
            ready(old(self)@, old(record)@, def_id),
        ensures
            scalar == scalar_value(old(self)@, old(record)@, def_id),
            final(self)@ == checked(old(self)@, old(record)@, def_id),
            final(record)@ == record_after(old(self)@, old(record)@, def_id),
        decreases depth(old(self)@, old(record)@, def_id), 1nat,
    {
        broadcast use vstd::std_specs::hash::group_hash_axioms;

        let ghost cx0 = self@;
        let ghost rec0 = record@;
        proof {
            lemma_depth(cx0, rec0, def_id);
            assert forall|e: DefId| #[trigger] visits(cx0, rec0, def_id, e) == (
            !rec0.contains_key(def_id) && (e == def_id || exists|i: int|
                0 <= i < slots(cx0, def_id).len() && (#[trigger] slots(cx0, def_id)[i]).open()
                    && visits(cx0, rec0, slots(cx0, def_id)[i].target(), e))) by {
                lemma_visits(cx0, rec0, def_id, e);
            }
        }
        if let Some(x) = record.get(&def_id) {
            let x: bool = *x;
            assert(self@.nodes =~= checked(cx0, rec0, def_id).nodes);
            assert(record@ =~= record_after(cx0, rec0, def_id));
            return x;
        }
        match self.item(def_id) {
            Some(Item::Message(_)) => self.check_message(def_id, record),
            Some(Item::Service(_)) => self.check_service(def_id, record),
            _ => {
                assert(self@.nodes =~= checked(cx0, rec0, def_id).nodes) by {
                    assert(marked_node(cx0, rec0, def_id) =~= cx0.nodes[def_id as int]);
                }
                assert(record@ =~= record_after(cx0, rec0, def_id));
                false
            },
        }
    }

    fn check_message(&mut self, def_id: DefId, record: &mut HashMap<DefId, bool>) -> (scalar: bool)
        requires
            ready(old(self)@, old(record)@, def_id),
            !old(record)@.contains_key(def_id),
            old(self)@.item(def_id) matches Some(ItemView::Message(_)),
        ensures
            scalar == scalar_value(old(self)@, old(record)@, def_id),
            final(self)@ == checked(old(self)@, old(record)@, def_id),
            final(record)@ == record_after(old(self)@, old(record)@, def_id),
        decreases depth(old(self)@, old(record)@, def_id), 0nat,
    {
        broadcast use vstd::std_specs::hash::group_hash_axioms;

        let ghost cx0 = self@;
        let ghost rec0 = record@;
        let ghost m0 = cx0.item(def_id)->0->Message_0;
        let n: usize = match self.item(def_id) {
            Some(Item::Message(m)) => m.fields.len(),
            _ => 0,
        };
        let mut i: usize = 0;
        proof {
            lemma_stage_start(cx0, rec0, def_id);
            assert(slots(cx0, def_id).take(0) =~= Seq::empty());
            assert(message_so_far(cx0, rec0, def_id, 0).fields =~= m0.fields);
        }
        while i < n
            invariant
                cx0 == old(self)@,
                rec0 == old(record)@,
                ready(cx0, rec0, def_id),
                !rec0.contains_key(def_id),
                cx0.item(def_id) == Some(ItemView::Message(m0)),
                n == m0.fields.len(),
                i <= n,
                stage(
                    cx0,
                    rec0,
                    reached(cx0, rec0, slots(cx0, def_id).take(i as int)),
                    def_id,
                    self@,
                    record@,
                ),
                self@.item(def_id) == Some(
                    ItemView::Message(message_so_far(cx0, rec0, def_id, i as int)),
                ),
            decreases n - i,
        {
            let ghost slot = slots(cx0, def_id)[i as int];
            let ghost so_far = message_so_far(cx0, rec0, def_id, i as int);
            let ghost next = message_so_far(cx0, rec0, def_id, i + 1);
            let ghost pre = reached(cx0, rec0, slots(cx0, def_id).take(i as int));
            proof {
                lemma_stage_adjust(cx0, rec0, pre, def_id, self@, record@);
                assert(slot == field_slot(cx0, m0.fields[i as int]));
                assert(field_slot(self@, so_far.fields[i as int]) == slot);
            }
            let (by_ptr, mark, kind) = self.message_slot(def_id, i);
            if by_ptr {
                proof {
                    lemma_stage_skip(cx0, rec0, def_id, i as int);
                }
                let ghost cx = self@;
                self.set_field_mark(def_id, i, false);
                proof {
                    lemma_stage_with_item(
                        cx0,
                        rec0,
                        pre,
                        def_id,
                        cx,
                        record@,
                        self@.item(def_id)->0,
                    );
                }
                let ghost cx = self@;
                self.set_all_in_stack(def_id, false);
                proof {
                    lemma_stage_with_item(
                        cx0,
                        rec0,
                        pre,
                        def_id,
                        cx,
                        record@,
                        self@.item(def_id)->0,
                    );
                    assert(off_stack(slots(cx0, def_id)[i as int]));
                    assert(self@.item(def_id)->0->Message_0.fields =~= next.fields);
                }
            } else if let Some(b) = mark {
                proof {
                    lemma_stage_skip(cx0, rec0, def_id, i as int);
                }
                assert(so_far.fields =~= next.fields) by {
                    assert(marked_field(cx0, rec0, m0.fields[i as int]) == m0.fields[i as int]);
                }
                if !b {
                    let ghost cx = self@;
                    self.set_all_in_stack(def_id, false);
                    proof {
                        lemma_stage_with_item(
                            cx0,
                            rec0,
                            pre,
                            def_id,
                            cx,
                            record@,
                            self@.item(def_id)->0,
                        );
                        assert(off_stack(slots(cx0, def_id)[i as int]));
                    }
                } else {
                    assert(!off_stack(slots(cx0, def_id)[i as int]));
                    assert(so_far.all_in_stack == next.all_in_stack);
                }
                assert(self@.item(def_id)->0->Message_0 =~= next);
            } else {
                proof {
                    lemma_stage_follow(cx0, rec0, def_id, i as int, self@, record@);
                }
                if let TyKind::Path(path) = kind {
                    let x = self.check_scalar_ty(path.did, record);
                    let ghost cx = self@;
                    assert(cx.item(def_id) == Some(ItemView::Message(so_far)));
                    self.set_field_mark(def_id, i, x);
                    proof {
                        lemma_stage_with_item(
                            cx0,
                            rec0,
                            reached(cx0, rec0, slots(cx0, def_id).take(i + 1)),
                            def_id,
                            cx,
                            record@,
                            self@.item(def_id)->0,
                        );
                        assert(!off_stack(slots(cx0, def_id)[i as int]));
                        assert(so_far.all_in_stack == next.all_in_stack);
                        assert(self@.item(def_id)->0->Message_0.fields =~= next.fields);
                    }
                }
            }
            i += 1;
        }
        assert(slots(cx0, def_id).take(i as int) =~= slots(cx0, def_id));
        let ghost pre = reached(cx0, rec0, slots(cx0, def_id));
        let all_in_stack: Option<bool> = match self.item(def_id) {
            Some(Item::Message(m)) => m.all_in_stack,
            _ => None,
        };
        let scalar: bool = match all_in_stack {
            Some(b) => b,
            None => {
                let ghost cx = self@;
                self.set_all_in_stack(def_id, true);
                proof {
                    lemma_stage_with_item(
                        cx0,
                        rec0,
                        pre,
                        def_id,
                        cx,
                        record@,
                        self@.item(def_id)->0,
                    );
                }
                true
            },
        };
        proof {
            let so_far = message_so_far(cx0, rec0, def_id, n as int);
            assert(scalar == scalar_value(cx0, rec0, def_id)) by {
                if exists|j: int| 0 <= j < n && off_stack(#[trigger] slots(cx0, def_id)[j]) {
                    let j = choose|j: int| 0 <= j < n && off_stack(#[trigger] slots(cx0, def_id)[j]);
                    assert(slots(cx0, def_id)[j].by_ptr || slots(cx0, def_id)[j].ty.in_stack == Some(
                        false,
                    ));
                } else {
                    assert forall|j: int| 0 <= j < slots(cx0, def_id).len() implies !(
                    #[trigger] slots(cx0, def_id)[j]).by_ptr && slots(cx0, def_id)[j].ty.in_stack
                        != Some(false) by {
                        assert(!off_stack(slots(cx0, def_id)[j]));
                    }
                }
            }
            assert(self@.item(def_id)->0->Message_0.fields =~= marked_item(
                cx0,
                rec0,
                def_id,
            )->Message_0.fields);
            assert(self@.nodes[def_id as int] =~= marked_node(cx0, rec0, def_id));
            lemma_stage_end(cx0, rec0, def_id, self@, record@);
        }
        record.insert(def_id, scalar);
        scalar
    }

    fn check_service(&mut self, def_id: DefId, record: &mut HashMap<DefId, bool>) -> (scalar: bool)
        requires
            ready(old(self)@, old(record)@, def_id),
            !old(record)@.contains_key(def_id),
            old(self)@.item(def_id) matches Some(ItemView::Service(_)),
        ensures
            scalar == scalar_value(old(self)@, old(record)@, def_id),
            final(self)@ == checked(old(self)@, old(record)@, def_id),
            final(record)@ == record_after(old(self)@, old(record)@, def_id),
        decreases depth(old(self)@, old(record)@, def_id), 0nat,
    {
        broadcast use vstd::std_specs::hash::group_hash_axioms;

        let ghost cx0 = self@;
        let ghost rec0 = record@;
        let ghost s0 = cx0.item(def_id)->0->Service_0;
        let n: usize = match self.item(def_id) {
            Some(Item::Service(s)) => s.methods.len(),
            _ => 0,
        };
        let mut is_scalar: bool = true;
        let mut i: usize = 0;
        proof {
            lemma_stage_start(cx0, rec0, def_id);
            assert(s0.methods.take(0) =~= Seq::empty());
            assert(slots(cx0, def_id).take(0) =~= Seq::empty());
            lemma_start_of_service(cx0, rec0, def_id);
        }
        while i < n
            invariant
                cx0 == old(self)@,
                rec0 == old(record)@,
                ready(cx0, rec0, def_id),
                !rec0.contains_key(def_id),
                cx0.item(def_id) == Some(ItemView::Service(s0)),
                n == s0.methods.len(),
                i <= n,
                service_slots(s0.methods.take(i as int)).len() <= slots(cx0, def_id).len(),
                stage(
                    cx0,
                    rec0,
                    reached(
                        cx0,
                        rec0,
                        slots(cx0, def_id).take(service_slots(s0.methods.take(i as int)).len() as int),
                    ),
                    def_id,
                    self@,
                    record@,
                ),
                self@.item(def_id) == Some(
                    ItemView::Service(service_so_far(cx0, rec0, def_id, i as int, 0)),
                ),
                is_scalar == tail_value(
                    cx0,
                    rec0,
                    slots(cx0, def_id).take(service_slots(s0.methods.take(i as int)).len() as int),
                ),
            decreases n - i,
        {
            let ghost base = service_slots(s0.methods.take(i as int)).len() as int;
            let args = self.arg_count(def_id, i);
            let mut a: usize = 0;
            while a < args
                invariant
                    cx0 == old(self)@,
                    rec0 == old(record)@,
                    ready(cx0, rec0, def_id),
                    !rec0.contains_key(def_id),
                    cx0.item(def_id) == Some(ItemView::Service(s0)),
                    n == s0.methods.len(),
                    i < n,
                    args == s0.methods[i as int].args.len(),
                    a <= args,
                    base == service_slots(s0.methods.take(i as int)).len(),
                    stage(
                        cx0,
                        rec0,
                        reached(cx0, rec0, slots(cx0, def_id).take(base + a)),
                        def_id,
                        self@,
                        record@,
                    ),
                    self@.item(def_id) == Some(
                        ItemView::Service(service_so_far(cx0, rec0, def_id, i as int, a as int)),
                    ),
                    is_scalar == tail_value(cx0, rec0, slots(cx0, def_id).take(base + a)),
                decreases args - a,
            {
                let ghost k = base + a;
                let ghost so_far = service_so_far(cx0, rec0, def_id, i as int, a as int);
                let ghost next = service_so_far(cx0, rec0, def_id, i as int, a + 1);
                let ghost pre = slots(cx0, def_id).take(k);
                proof {
                    lemma_service_slot_at(s0.methods, i as int, a as int);
                    lemma_service_slots_by_value(s0.methods);
                    lemma_tail_push(cx0, rec0, pre, slots(cx0, def_id)[k]);
                    assert(slots(cx0, def_id).take(k + 1) =~= pre.push(slots(cx0, def_id)[k]));
                    assert(so_far.methods[i as int].args[a as int]
                        == s0.methods[i as int].args[a as int]);
                }
                let (mark, kind) = self.service_slot(def_id, i, a);
                if let Some(b) = mark {
                    is_scalar = b;
                    proof {
                        lemma_stage_skip(cx0, rec0, def_id, k);
                        lemma_service_arg_done(cx0, rec0, def_id, i as int, a as int);
                    }
                } else {
                    proof {
                        lemma_stage_follow(cx0, rec0, def_id, k, self@, record@);
                    }
                    if let TyKind::Path(path) = kind {
                        let x = self.check_scalar_ty(path.did, record);
                        let ghost cx = self@;
                        assert(cx.item(def_id) == Some(ItemView::Service(so_far)));
                        self.set_arg_mark(def_id, i, a, x);
                        proof {
                            lemma_stage_with_item(
                                cx0,
                                rec0,
                                reached(cx0, rec0, slots(cx0, def_id).take(k + 1)),
                                def_id,
                                cx,
                                record@,
                                self@.item(def_id)->0,
                            );
                            lemma_service_arg_done(cx0, rec0, def_id, i as int, a as int);
                        }
                        if !x {
                            is_scalar = false;
                        }
                    }
                }
                a += 1;
            }
            let ghost k = base + a;
            let ghost so_far = service_so_far(cx0, rec0, def_id, i as int, a as int);
            let ghost pre = slots(cx0, def_id).take(k);
            proof {
                lemma_service_slot_at(s0.methods, i as int, a as int);
                lemma_service_slots_by_value(s0.methods);
                lemma_tail_push(cx0, rec0, pre, slots(cx0, def_id)[k]);
                assert(slots(cx0, def_id).take(k + 1) =~= pre.push(slots(cx0, def_id)[k]));
                assert(so_far.methods[i as int].ret == s0.methods[i as int].ret);
                assert(s0.methods.take(i + 1).drop_last() =~= s0.methods.take(i as int));
                assert(service_slots(s0.methods.take(i + 1)).len() == k + 1);
            }
            let (mark, kind) = self.service_slot(def_id, i, a);
            if let Some(b) = mark {
                is_scalar = b;
                proof {
                    lemma_stage_skip(cx0, rec0, def_id, k);
                    lemma_service_ret_done(cx0, rec0, def_id, i as int);
                }
            } else {
                proof {
                    lemma_stage_follow(cx0, rec0, def_id, k, self@, record@);
                }
                if let TyKind::Path(path) = kind {
                    let x = self.check_scalar_ty(path.did, record);
                    let ghost cx = self@;
                    assert(cx.item(def_id) == Some(ItemView::Service(so_far)));
                    self.set_ret_mark(def_id, i, x);
                    proof {
                        lemma_stage_with_item(
                            cx0,
                            rec0,
                            reached(cx0, rec0, slots(cx0, def_id).take(k + 1)),
                            def_id,
                            cx,
                            record@,
                            self@.item(def_id)->0,
                        );
                        lemma_service_ret_done(cx0, rec0, def_id, i as int);
                    }
                    if !x {
                        is_scalar = false;
                    }
                }
            }
            i += 1;
        }
        proof {
            assert(s0.methods.take(n as int) =~= s0.methods);
            assert(slots(cx0, def_id).take(slots(cx0, def_id).len() as int) =~= slots(cx0, def_id));
            lemma_service_value(cx0, rec0, def_id);
            assert(self@.item(def_id)->0->Service_0.methods =~= marked_item(
                cx0,
                rec0,
                def_id,
            )->Service_0.methods);
            assert(self@.nodes[def_id as int] =~= marked_node(cx0, rec0, def_id));
            lemma_stage_end(cx0, rec0, def_id, self@, record@);
        }
        record.insert(def_id, is_scalar);
        is_scalar
    }
}

proof fn lemma_start_of_service(cx: ContextView, rec: Record, d: DefId)
    requires
        cx.item(d) matches Some(ItemView::Service(_)),
    ensures
        service_so_far(cx, rec, d, 0, 0) == cx.item(d)->0->Service_0,
        tail_value(cx, rec, Seq::empty()),
{
    let s = cx.item(d)->0->Service_0;
    let start = service_so_far(cx, rec, d, 0, 0);
    assert forall|k: int| 0 <= k < s.methods.len() implies start.methods[k] == s.methods[k] by {
        assert(start.methods[k].args =~= s.methods[k].args);
    }
    assert(start.methods =~= s.methods);
}

proof fn lemma_service_arg_done(cx: ContextView, rec: Record, d: DefId, i: int, a: int)
    requires
        cx.item(d) matches Some(ItemView::Service(s)) && 0 <= i < s.methods.len() && 0 <= a
            < s.methods[i].args.len(),
    ensures
        ({
            let s = cx.item(d)->0->Service_0;
            let ty = s.methods[i].args[a];
            let so_far = service_so_far(cx, rec, d, i, a);
            let next = service_so_far(cx, rec, d, i, a + 1);
            match ty.in_stack {
                Some(_) => so_far == next,
                None => so_far.with_arg_mark(i, a, scalar_value(cx, rec, method_slot(ty).target()))
                    == next,
            }
        }),
{
    let s = cx.item(d)->0->Service_0;
    let ty = s.methods[i].args[a];
    let so_far = service_so_far(cx, rec, d, i, a);
    let next = service_so_far(cx, rec, d, i, a + 1);
    if ty.in_stack is Some {
        assert(marked_ty(cx, rec, ty) == ty);
        assert(so_far.methods[i].args =~= next.methods[i].args);
        assert(so_far.methods =~= next.methods);
    } else {
        let marked = so_far.with_arg_mark(i, a, scalar_value(cx, rec, method_slot(ty).target()));
        assert(marked.methods[i].args =~= next.methods[i].args);
        assert(marked.methods =~= next.methods);
    }
}

proof fn lemma_service_ret_done(cx: ContextView, rec: Record, d: DefId, i: int)
    requires
        cx.item(d) matches Some(ItemView::Service(s)) && 0 <= i < s.methods.len(),
    ensures
        ({
            let s = cx.item(d)->0->Service_0;
            let ty = s.methods[i].ret;
            let so_far = service_so_far(cx, rec, d, i, s.methods[i].args.len() as int);
            let next = service_so_far(cx, rec, d, i + 1, 0);
            match ty.in_stack {
                Some(_) => so_far == next,
                None => so_far.with_ret_mark(i, scalar_value(cx, rec, method_slot(ty).target()))
                    == next,
            }
        }),
{
    let s = cx.item(d)->0->Service_0;
    let ty = s.methods[i].ret;
    let so_far = service_so_far(cx, rec, d, i, s.methods[i].args.len() as int);
    let next = service_so_far(cx, rec, d, i + 1, 0);
    assert(so_far.methods[i].args =~= next.methods[i].args);
    if i + 1 < s.methods.len() {
        assert(so_far.methods[i + 1].args =~= next.methods[i + 1].args);
    }
    if ty.in_stack is Some {
        assert(marked_ty(cx, rec, ty) == ty);
        assert(so_far.methods =~= next.methods);
    } else {
        let marked = so_far.with_ret_mark(i, scalar_value(cx, rec, method_slot(ty).target()));
        assert(marked.methods =~= next.methods);
    }
}

} // verus!
