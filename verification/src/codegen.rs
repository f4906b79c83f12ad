//! Writing one item: what its text is, and what the backend makes of it.
use crate::backend::CodegenBackend;
use crate::context::{Context, ContextView, EnumMode};
use crate::render::{
    attrs_code, attrs_text, const_text, enum_ok, enum_text, is_new_type_enum, nested_code,
    nested_text, new_type_code, new_type_enum_code, new_type_enum_ok, new_type_enum_text,
    new_type_text, plain_enum_code, re_pub_code, re_pub_text, service_code, service_text,
    struct_code, struct_ok, struct_text,
};
use crate::rir::{Const, DefId, Enum, Item, ItemView, Message, NewType, Service, methods_view};
use crate::scalar::{checked, ready, record_after, scalar_value};
use crate::text::{Text, texts};
use std::collections::HashMap;
use vstd::prelude::*;

verus! {

/// Generates code with the help of a backend.
#[derive(Clone)]
pub struct Codegen<B> {
    backend: B,
}

impl<B> Codegen<B> {
    /// The backend.
    pub closed spec fn backend(self) -> B {
        self.backend
    }

    /// Generates code with the help of this backend.
    pub fn new(backend: B) -> (cg: Self)
        ensures
            cg.backend() == backend,
    {
        Codegen { backend }
    }
}

impl<B: CodegenBackend> std::ops::Deref for Codegen<B> {
    type Target = Context;

    fn deref(&self) -> (cx: &Context)
        ensures
            cx@ == self.backend().context(),
    {
        self.cx()
    }
}

impl<B: CodegenBackend> Codegen<B> {
    /// What the backend knows of the program.
    pub(crate) fn cx(&self) -> (cx: &Context)
        ensures
            cx@ == self.backend().context(),
    {
        self.backend.cx()
    }
}

/// How an item comes into a module.
#[derive(Clone, Copy, Debug, PartialEq, Eq, Structural)]
pub enum CodegenKind {
    /// It is written there.
    Direct,
    /// It stands elsewhere, and a reference is written.
    RePub,
}

/// An item to be written.
#[derive(Clone, Copy, Debug, PartialEq, Eq, Structural)]
pub struct CodegenItem {
    pub def_id: DefId,
    pub kind: CodegenKind,
}

impl From<DefId> for CodegenItem {
    fn from(value: DefId) -> (item: Self)
        ensures
            item == (CodegenItem { def_id: value, kind: CodegenKind::Direct }),
    {
        CodegenItem { def_id: value, kind: CodegenKind::Direct }
    }
}

impl vstd::std_specs::convert::FromSpecImpl<DefId> for CodegenItem {
    open spec fn obeys_from_spec() -> bool {
        true
    }

    open spec fn from_spec(value: DefId) -> CodegenItem {
        CodegenItem { def_id: value, kind: CodegenKind::Direct }
    }
}

/// The stream once what stands in front of an item has been written.
pub open spec fn with_head(cx: ContextView, did: DefId, before: Text) -> Text {
    before + nested_text(cx, did) + attrs_text(cx, did, "\n"@)
}

/// Whether the backend may give the methods of a service these sources.
pub open spec fn service_codes<B: CodegenBackend>(
    b: B,
    cur: Option<DefId>,
    did: DefId,
    codes: Seq<Text>,
) -> bool {
    let methods = b.context().nodes[did as int].service_methods;
    &&& codes.len() == methods.len()
    &&& forall|i: int|
        0 <= i < codes.len() ==> b.service_method(cur, did, methods[i], #[trigger] codes[i])
}

/// What may become of the stream when a struct is written as part of the item
/// `cur`: the struct, and what the backend makes of that.
pub open spec fn struct_written<B: CodegenBackend>(
    b: B,
    cur: Option<DefId>,
    did: DefId,
    s: crate::rir::MessageView,
    before: Text,
    after: Text,
) -> bool {
    b.struct_impl(cur, did, s, before + struct_text(b.context(), did, s), after)
}

/// What may become of the stream when an enum is written.
pub open spec fn enum_written<B: CodegenBackend>(
    b: B,
    cur: Option<DefId>,
    did: DefId,
    e: crate::rir::EnumView,
    before: Text,
    after: Text,
) -> bool {
    b.enum_impl(cur, did, e, before + enum_text(b.context(), did, e), after)
}

/// What may become of the stream when a service is written: for some sources
/// that the backend gave its methods, the trait, and what the backend makes of
/// that.
pub open spec fn service_written<B: CodegenBackend>(
    b: B,
    cur: Option<DefId>,
    did: DefId,
    s: crate::rir::ServiceView,
    before: Text,
    after: Text,
) -> bool {
    exists|codes: Seq<Text>| #[trigger]
        service_codes(b, cur, did, codes) && b.service_impl(
            cur,
            did,
            s,
            before + service_text(b.context().rust_name(did), codes),
            after,
        )
}

/// What may become of the stream when a new type is written.
pub open spec fn new_type_written<B: CodegenBackend>(
    b: B,
    cur: Option<DefId>,
    did: DefId,
    t: crate::rir::NewTypeView,
    before: Text,
    after: Text,
) -> bool {
    b.newtype_impl(cur, did, t, before + new_type_text(b.context(), did, t), after)
}

/// Whether `states` can be what a stream holds before, between and after `n`
/// steps, of which the first finds it as `before`.
pub open spec fn stream_states(states: Seq<Text>, before: Text, n: nat) -> bool {
    &&& states.len() == n + 1
    &&& states[0] == before
}

/// What may become of the stream when the item is written, where modules are
/// nested no deeper than `fuel`.
pub open spec fn direct_written_at<B: CodegenBackend>(
    b: B,
    did: DefId,
    before: Text,
    after: Text,
    fuel: nat,
) -> bool
    decreases fuel,
{
    let head = with_head(b.context(), did, before);
    match b.context().item(did) {
        Some(ItemView::Message(s)) => struct_written(b, Some(did), did, s, head, after),
        Some(ItemView::Enum(e)) => enum_written(b, Some(did), did, e, head, after),
        Some(ItemView::Service(s)) => service_written(b, Some(did), did, s, head, after),
        Some(ItemView::NewType(t)) => new_type_written(b, Some(did), did, t, head, after),
        Some(ItemView::Const(c)) => const_text(b.context(), did, c) matches Some(def) && after
            == head + def,
        Some(ItemView::Mod(m)) => fuel > 0 && exists|states: Seq<Text>| #[trigger]
            stream_states(states, Seq::empty(), m.items.len()) && after == head + states.last()
                && forall|i: int|
                0 <= i < m.items.len() ==> direct_written_at(
                    b,
                    #[trigger] m.items[i],
                    states[i],
                    states[i + 1],
                    (fuel - 1) as nat,
                ),
        None => false,
    }
}

/// What may become of the stream when an item is written. The text of a module
/// is that of its items, with nothing around it.
pub open spec fn item_written<B: CodegenBackend>(
    b: B,
    item: CodegenItem,
    before: Text,
    after: Text,
) -> bool {
    match item.kind {
        CodegenKind::Direct => exists|fuel: nat| #[trigger]
            direct_written_at(b, item.def_id, before, after, fuel),
        CodegenKind::RePub => after == before + re_pub_text(b.context(), item.def_id),
    }
}

/// Whether the item can be written, where modules are nested no deeper than
/// `fuel`.
pub open spec fn direct_ok_at(cx: ContextView, did: DefId, fuel: nat) -> bool
    decreases fuel,
{
    match cx.item(did) {
        Some(ItemView::Message(s)) => struct_ok(cx, did, s),
        Some(ItemView::Enum(e)) => enum_ok(cx, did, e),
        Some(ItemView::Service(_)) => true,
        Some(ItemView::NewType(_)) => true,
        Some(ItemView::Const(c)) => const_text(cx, did, c) is Some,
        Some(ItemView::Mod(m)) => fuel > 0 && forall|i: int|
            0 <= i < m.items.len() ==> direct_ok_at(
                cx,
                #[trigger] m.items[i],
                (fuel - 1) as nat,
            ),
        None => false,
    }
}

/// Whether an item can be written: it exists, all that its text needs is known,
/// and no module holds itself.
pub open spec fn item_ok(cx: ContextView, item: CodegenItem) -> bool {
    match item.kind {
        CodegenKind::Direct => exists|fuel: nat| direct_ok_at(cx, item.def_id, fuel),
        CodegenKind::RePub => cx.knows(item.def_id),
    }
}

/// Whether modules are nested just so deep in the item.
pub open spec fn is_nesting(cx: ContextView, did: DefId, fuel: nat) -> bool {
    &&& direct_ok_at(cx, did, fuel)
    &&& forall|less: nat| less < fuel ==> !direct_ok_at(cx, did, less)
}

/// How deep modules are nested in the item.
pub open spec fn nesting(cx: ContextView, did: DefId) -> nat {
    choose|fuel: nat| is_nesting(cx, did, fuel)
}

proof fn lemma_nesting_exists(cx: ContextView, did: DefId, fuel: nat)
    requires
        direct_ok_at(cx, did, fuel),
    ensures
        exists|n: nat| is_nesting(cx, did, n),
    decreases fuel,
{
    if exists|less: nat| less < fuel && direct_ok_at(cx, did, less) {
        let less = choose|less: nat| less < fuel && direct_ok_at(cx, did, less);
        lemma_nesting_exists(cx, did, less);
    } else {
        assert(is_nesting(cx, did, fuel));
    }
}

pub(crate) proof fn lemma_nesting(cx: ContextView, did: DefId, fuel: nat)
    requires
        direct_ok_at(cx, did, fuel),
    ensures
        is_nesting(cx, did, nesting(cx, did)),
        nesting(cx, did) <= fuel,
{
    lemma_nesting_exists(cx, did, fuel);
}

pub(crate) proof fn lemma_direct_written_deeper<B: CodegenBackend>(
    b: B,
    did: DefId,
    before: Text,
    after: Text,
    f: nat,
    g: nat,
)
    requires
        direct_written_at(b, did, before, after, f),
        f <= g,
    ensures
        direct_written_at(b, did, before, after, g),
    decreases f,
{
    if let Some(ItemView::Mod(m)) = b.context().item(did) {
        let head = with_head(b.context(), did, before);
        let states = choose|states: Seq<Text>| #[trigger]
            stream_states(states, Seq::empty(), m.items.len()) && after == head + states.last()
                && forall|i: int|
                0 <= i < m.items.len() ==> direct_written_at(
                    b,
                    #[trigger] m.items[i],
                    states[i],
                    states[i + 1],
                    (f - 1) as nat,
                );
        assert forall|i: int| 0 <= i < m.items.len() implies direct_written_at(
            b,
            #[trigger] m.items[i],
            states[i],
            states[i + 1],
            (g - 1) as nat,
        ) by {
            lemma_direct_written_deeper(
                b,
                m.items[i],
                states[i],
                states[i + 1],
                (f - 1) as nat,
                (g - 1) as nat,
            );
        }
    }
}

impl<B: CodegenBackend> Codegen<B> {
    /// Finds out whether values of the item lie wholly on the stack, and marks
    /// the types on the way to the answer.
    pub fn check_scalar_ty(&mut self, def_id: DefId, record: &mut HashMap<DefId, bool>) -> (scalar:
        bool)
        requires
            ready(old(self).backend().context(), old(record)@, def_id),
        ensures
            scalar == scalar_value(old(self).backend().context(), old(record)@, def_id),
            final(self).backend().context() == checked(
                old(self).backend().context(),
                old(record)@,
                def_id,
            ),
            final(record)@ == record_after(old(self).backend().context(), old(record)@, def_id),
            final(self).backend().rest() == old(self).backend().rest(),
    {
        self.backend.cx_mut().check_scalar_ty(def_id, record)
    }

    /// Writes a struct by itself.
    pub fn write_struct(&self, def_id: DefId, stream: &mut String, s: &Message)
        requires
            struct_ok(self.backend().context(), def_id, s@),
        ensures
            struct_written(self.backend(), None, def_id, s@, old(stream)@, final(stream)@),
    {
        self.struct_in(None, def_id, stream, s)
    }

    fn struct_in(&self, cur: Option<DefId>, def_id: DefId, stream: &mut String, s: &Message)
        requires
            struct_ok(self.backend().context(), def_id, s@),
        ensures
            struct_written(self.backend(), cur, def_id, s@, old(stream)@, final(stream)@),
    {
        stream.append(struct_code(self.cx(), def_id, s).as_str());
        self.backend.codegen_struct_impl(cur, def_id, stream, s);
    }

    /// Writes an enum by itself, as a struct around an integer.
    pub fn write_enum_as_new_type(&self, def_id: DefId, stream: &mut String, e: &Enum)
        requires
            new_type_enum_ok(self.backend().context(), def_id, e@),
        ensures
            self.backend().enum_impl(
                None,
                def_id,
                e@,
                old(stream)@ + new_type_enum_text(self.backend().context(), def_id, e@),
                final(stream)@,
            ),
    {
        self.enum_as_new_type_in(None, def_id, stream, e)
    }

    fn enum_as_new_type_in(
        &self,
        cur: Option<DefId>,
        def_id: DefId,
        stream: &mut String,
        e: &Enum,
    )
        requires
            new_type_enum_ok(self.backend().context(), def_id, e@),
        ensures
            self.backend().enum_impl(
                cur,
                def_id,
                e@,
                old(stream)@ + new_type_enum_text(self.backend().context(), def_id, e@),
                final(stream)@,
            ),
    {
        stream.append(new_type_enum_code(self.cx(), def_id, e).as_str());
        self.backend.codegen_enum_impl(cur, def_id, stream, e);
    }

    /// Writes an enum by itself, in the form that its tags ask for.
    pub fn write_enum(&self, def_id: DefId, stream: &mut String, e: &Enum)
        requires
            enum_ok(self.backend().context(), def_id, e@),
        ensures
            enum_written(self.backend(), None, def_id, e@, old(stream)@, final(stream)@),
    {
        self.enum_in(None, def_id, stream, e)
    }

    fn enum_in(&self, cur: Option<DefId>, def_id: DefId, stream: &mut String, e: &Enum)
        requires
            enum_ok(self.backend().context(), def_id, e@),
        ensures
            enum_written(self.backend(), cur, def_id, e@, old(stream)@, final(stream)@),
    {
        let new_type = match self.cx().node_tags(def_id) {
            Some(tags) => match tags.enum_mode {
                Some(EnumMode::NewType) => true,
                _ => false,
            },
            None => false,
        };
        assert(new_type == is_new_type_enum(self.backend().context(), def_id));
        if new_type {
            return self.enum_as_new_type_in(cur, def_id, stream, e);
        }
        stream.append(plain_enum_code(self.cx(), def_id, e).as_str());
        self.backend.codegen_enum_impl(cur, def_id, stream, e);
    }

    /// Writes the trait of a service by itself.
    pub fn write_service(&self, def_id: DefId, stream: &mut String, s: &Service)
        requires
            self.backend().context().knows(def_id),
        ensures
            service_written(self.backend(), None, def_id, s@, old(stream)@, final(stream)@),
    {
        self.service_in(None, def_id, stream, s)
    }

    fn service_in(&self, cur: Option<DefId>, def_id: DefId, stream: &mut String, s: &Service)
        requires
            self.backend().context().knows(def_id),
        ensures
            service_written(self.backend(), cur, def_id, s@, old(stream)@, final(stream)@),
    {
        let cx = self.cx();
        let methods = cx.service_methods(def_id);
        let mut codes: Vec<String> = Vec::new();
        let mut i: usize = 0;
        assert(cx@.nodes[def_id as int].service_methods.len() == methods@.len());
        while i < methods.len()
            invariant
                i <= methods@.len(),
                codes@.len() == i,
                forall|j: int|
                    0 <= j < i ==> self.backend().service_method(
                        cur,
                        def_id,
                        methods_view(methods@)[j],
                        #[trigger] texts(codes@)[j],
                    ),
            decreases methods@.len() - i,
        {
            let ghost before = codes@;
            let code = self.backend.codegen_service_method(cur, def_id, &methods[i]);
            codes.push(code);
            proof {
                assert(texts(codes@) =~= texts(before).push(code@));
                assert forall|j: int| 0 <= j < i + 1 implies self.backend().service_method(
                    cur,
                    def_id,
                    methods_view(methods@)[j],
                    #[trigger] texts(codes@)[j],
                ) by {
                    if j < i {
                        assert(texts(codes@)[j] == texts(before)[j]);
                    }
                }
            }
            i += 1;
        }
        assert(service_codes(self.backend(), cur, def_id, texts(codes@)));
        stream.append(service_code(cx.rust_name(def_id), &codes).as_str());
        self.backend.codegen_service_impl(cur, def_id, stream, s);
    }

    /// Writes a new type by itself.
    pub fn write_new_type(&self, def_id: DefId, stream: &mut String, t: &NewType)
        requires
            self.backend().context().knows(def_id),
        ensures
            new_type_written(self.backend(), None, def_id, t@, old(stream)@, final(stream)@),
    {
        self.new_type_in(None, def_id, stream, t)
    }

    fn new_type_in(&self, cur: Option<DefId>, def_id: DefId, stream: &mut String, t: &NewType)
        requires
            self.backend().context().knows(def_id),
        ensures
            new_type_written(self.backend(), cur, def_id, t@, old(stream)@, final(stream)@),
    {
        stream.append(new_type_code(self.cx(), def_id, t).as_str());
        self.backend.codegen_newtype_impl(cur, def_id, stream, t);
    }

    /// Writes a constant.
    pub fn write_const(&self, did: DefId, stream: &mut String, c: &Const)
        requires
            self.backend().context().knows(did),
            const_text(self.backend().context(), did, c@) is Some,
        ensures
            final(stream)@ == old(stream)@ + const_text(
                self.backend().context(),
                did,
                c@,
            )->0,
    {
        let cx = self.cx();
        let ty = cx.codegen_ty(did);
        let name = cx.rust_name(did);
        let def = cx.def_lit(name, &c.lit, ty).unwrap();
        stream.append(def.as_str());
    }

    /// Writes an item: what an adjustment puts in front of it, then the item, or
    /// only a reference to it.
    pub fn write_item(&self, stream: &mut String, item: CodegenItem)
        requires
            item_ok(self.backend().context(), item),
        ensures
            item_written(self.backend(), item, old(stream)@, final(stream)@),
        decreases nesting(self.backend().context(), item.def_id), 1nat,
    {
        let def_id = item.def_id;
        let cx = self.cx();
        let ghost b = self.backend();
        match item.kind {
            CodegenKind::Direct => {
                let ghost fuel = choose|fuel: nat| direct_ok_at(cx@, def_id, fuel);
                proof {
                    lemma_nesting(cx@, def_id, fuel);
                }
                let ghost n = nesting(cx@, def_id);
                stream.append(nested_code(cx, def_id).as_str());
                stream.append(attrs_code(cx, def_id, "\n").as_str());
                if let Some(found) = cx.item(def_id) {
                    match found {
                        Item::Message(s) => {
                            self.struct_in(Some(def_id), def_id, stream, s);
                            assert(direct_written_at(b, def_id, old(stream)@, stream@, n));
                        },
                        Item::Enum(e) => {
                            self.enum_in(Some(def_id), def_id, stream, e);
                            assert(direct_written_at(b, def_id, old(stream)@, stream@, n));
                        },
                        Item::Service(s) => {
                            self.service_in(Some(def_id), def_id, stream, s);
                            assert(direct_written_at(b, def_id, old(stream)@, stream@, n));
                        },
                        Item::NewType(t) => {
                            self.new_type_in(Some(def_id), def_id, stream, t);
                            assert(direct_written_at(b, def_id, old(stream)@, stream@, n));
                        },
                        Item::Const(c) => {
                            self.write_const(def_id, stream, c);
                            assert(direct_written_at(b, def_id, old(stream)@, stream@, n));
                        },
                        Item::Mod(m) => {
                            assert(cx@.item(def_id) == Some(ItemView::Mod(m@)));
                            proof {
                                lemma_mod_ok(cx@, def_id, n);
                            }
                            let inner = self.write_mod_items(&m.items, Ghost(n));
                            stream.append(inner.as_str());
                            assert(mod_written(b, m@.items, inner@));
                            let ghost (states, f) = choose|states: Seq<Text>, f: nat| #[trigger]
                                mod_states(b, m@.items, states, f) && states.last() == inner@;
                            proof {
                                lemma_mod_written(b, def_id, old(stream)@, states, f);
                            }
                        },
                    }
                }
            },
            CodegenKind::RePub => {
                stream.append(re_pub_code(cx, def_id).as_str());
            },
        }
    }

    /// The text of the items of a module.
    fn write_mod_items(&self, items: &Vec<DefId>, Ghost(n): Ghost<nat>) -> (inner: String)
        requires
            n > 0,
            forall|i: int|
                0 <= i < items@.len() ==> direct_ok_at(
                    self.backend().context(),
                    #[trigger] items@[i],
                    (n - 1) as nat,
                ),
        ensures
            mod_written(self.backend(), items@, inner@),
        decreases n, 0nat,
    {
        let ghost b = self.backend();
        let mut inner = String::new();
        let mut i: usize = 0;
        let ghost mut states: Seq<Text> = seq![Seq::empty()];
        let ghost mut f: nat = 0;
        while i < items.len()
            invariant
                b == self.backend(),
                n > 0,
                forall|i: int|
                    0 <= i < items@.len() ==> direct_ok_at(
                        self.backend().context(),
                        #[trigger] items@[i],
                        (n - 1) as nat,
                    ),
                i <= items@.len(),
                mod_states(b, items@.take(i as int), states, f),
                states.last() == inner@,
            decreases items@.len() - i,
        {
            let def_id = items[i];
            proof {
                assert(direct_ok_at(b.context(), items@[i as int], (n - 1) as nat));
                lemma_nesting(b.context(), def_id, (n - 1) as nat);
            }
            self.write_item(&mut inner, CodegenItem::from(def_id));
            proof {
                let before = states;
                let g = choose|g: nat| #[trigger]
                    direct_written_at(b, def_id, before.last(), inner@, g);
                lemma_mod_states_push(b, items@.take(i as int), before, f, def_id, inner@, g);
                assert(items@.take(i + 1) =~= items@.take(i as int).push(def_id));
                states = before.push(inner@);
                f = f + g;
            }
            i += 1;
        }
        assert(items@.take(i as int) =~= items@);
        inner
    }
}

/// Whether `states` are what a stream, empty at first, may hold before, between
/// and after the items are written, where modules are nested no deeper than
/// `fuel`.
spec fn mod_states<B: CodegenBackend>(
    b: B,
    items: Seq<DefId>,
    states: Seq<Text>,
    fuel: nat,
) -> bool {
    &&& stream_states(states, Seq::empty(), items.len())
    &&& forall|i: int|
        0 <= i < items.len() ==> direct_written_at(
            b,
            #[trigger] items[i],
            states[i],
            states[i + 1],
            fuel,
        )
}

pub(crate) proof fn lemma_mod_ok(cx: ContextView, did: DefId, n: nat)
    requires
        direct_ok_at(cx, did, n),
        cx.item(did) matches Some(ItemView::Mod(_)),
    ensures
        n > 0,
        forall|i: int|
            0 <= i < cx.item(did)->0->Mod_0.items.len() ==> direct_ok_at(
                cx,
                #[trigger] cx.item(did)->0->Mod_0.items[i],
                (n - 1) as nat,
            ),
{
}

proof fn lemma_mod_written<B: CodegenBackend>(
    b: B,
    did: DefId,
    before: Text,
    states: Seq<Text>,
    f: nat,
)
    requires
        b.context().item(did) matches Some(ItemView::Mod(m)) && mod_states(b, m.items, states, f),
    ensures
        direct_written_at(
            b,
            did,
            before,
            with_head(b.context(), did, before) + states.last(),
            f + 1,
        ),
{
    let m = b.context().item(did)->0->Mod_0;
    assert(stream_states(states, Seq::empty(), m.items.len()));
    assert(((f + 1) - 1) as nat == f);
}

/// Whether `inner` may be the text of the items.
spec fn mod_written<B: CodegenBackend>(b: B, items: Seq<DefId>, inner: Text) -> bool {
    exists|states: Seq<Text>, fuel: nat| #[trigger]
        mod_states(b, items, states, fuel) && states.last() == inner
}

proof fn lemma_mod_states_push<B: CodegenBackend>(
    b: B,
    items: Seq<DefId>,
    states: Seq<Text>,
    f: nat,
    did: DefId,
    after: Text,
    g: nat,
)
    requires
        mod_states(b, items, states, f),
        direct_written_at(b, did, states.last(), after, g),
    ensures
        mod_states(b, items.push(did), states.push(after), f + g),
{
    let more = items.push(did);
    let next = states.push(after);
    assert forall|i: int| 0 <= i < more.len() implies direct_written_at(
        b,
        #[trigger] more[i],
        next[i],
        next[i + 1],
        f + g,
    ) by {
        if i < items.len() {
            assert(more[i] == items[i]);
            lemma_direct_written_deeper(b, items[i], states[i], states[i + 1], f, f + g);
        } else {
            lemma_direct_written_deeper(b, did, states.last(), after, g, f + g);
        }
    }
}

} // verus!
