//! What the views tell: all that a value holds, each part by its own view, and
//! sequences part by part.
use crate::check_laws::item_of;
use crate::context::{Adjust, Context, ContextView, LitDef, Node};
use crate::modules::ModGroup;
use crate::render_laws::{adjustment, name_of, told_to_box};
use crate::rir::{
    Const, DefId, Enum, EnumVariant, Field, Item, ItemView, Message, Method, Mod, NewType, Service,
    Ty,
};
use crate::text::texts;
use vstd::prelude::*;

verus! {

/// The view of a type tells its kind, its source and its mark.
pub proof fn law_type_view(ty: Ty)
    ensures
        ty@.kind == ty.kind,
        ty@.code == ty.code@,
        ty@.in_stack == ty.in_stack,
{
}

/// The view of a message tells each field, in order, and what was found of it.
pub proof fn law_message_view(m: Message, f: Field, i: int)
    ensures
        f@.did == f.did,
        f@.kind == f.kind,
        f@.ty == f.ty@,
        m@.all_in_stack == m.all_in_stack,
        m@.fields.len() == m.fields@.len(),
        0 <= i < m.fields@.len() ==> m@.fields[i] == m.fields@[i]@,
{
}

/// The view of an enum tells the type of its discriminants and each variant, in
/// order: its number, its discriminant and the types that it holds.
pub proof fn law_enum_view(e: Enum, v: EnumVariant, i: int)
    ensures
        v@.did == v.did,
        v@.discr == v.discr,
        v@.fields.len() == v.fields@.len(),
        0 <= i < v.fields@.len() ==> v@.fields[i] == v.fields@[i]@,
        e@.repr == e.repr,
        e@.variants.len() == e.variants@.len(),
        0 <= i < e.variants@.len() ==> e@.variants[i] == e.variants@[i]@,
{
}

/// The view of a service tells each method, in order: its name, the types of its
/// arguments and the type that it returns.
pub proof fn law_service_view(s: Service, m: Method, i: int)
    ensures
        m@.name == m.name@,
        m@.ret == m.ret@,
        m@.args.len() == m.args@.len(),
        0 <= i < m.args@.len() ==> m@.args[i] == m.args@[i].ty@,
        s@.methods.len() == s.methods@.len(),
        0 <= i < s.methods@.len() ==> s@.methods[i] == s.methods@[i]@,
{
}

/// The view of an item tells which kind it is of, and its definition.
pub proof fn law_item_view(item: Item, t: NewType, c: Const, m: Mod)
    ensures
        t@.ty == t.ty@,
        c@.lit == c.lit@,
        m@.items == m.items@,
        match item {
            Item::Message(x) => item@ == ItemView::Message(x@),
            Item::Enum(x) => item@ == ItemView::Enum(x@),
            Item::Service(x) => item@ == ItemView::Service(x@),
            Item::NewType(x) => item@ == ItemView::NewType(x@),
            Item::Const(x) => item@ == ItemView::Const(x@),
            Item::Mod(x) => item@ == ItemView::Mod(x@),
        },
{
}

/// The texts of strings are those of the strings, in order.
pub proof fn law_texts(strings: Seq<String>, i: int)
    ensures
        texts(strings).len() == strings.len(),
        0 <= i < strings.len() ==> texts(strings)[i] == strings[i]@,
{
}

/// The view of a node tells all that is known of the definition.
pub proof fn law_node_view(n: Node, a: Adjust, i: int)
    ensures
        a@.boxed == a.boxed,
        a@.attrs == texts(a.attrs@),
        a@.nested_items == texts(a.nested_items@),
        n@.rust_name == n.rust_name@,
        n.item is None <==> n@.item is None,
        n.item is Some ==> n@.item->0 == n.item->0@,
        n.adjust is None <==> n@.adjust is None,
        n.adjust is Some ==> n@.adjust->0 == n.adjust->0@,
        n@.tags == n.tags,
        n@.ty_code == n.ty_code@,
        n@.item_path == texts(n.item_path@),
        n@.mod_path == texts(n.mod_path@),
        n@.service_methods.len() == n.service_methods@.len(),
        0 <= i < n.service_methods@.len() ==> n@.service_methods[i] == n.service_methods@[i]@,
{
}

/// The view of a context tells each node and each row of the table of constants, in
/// order, and what is to be generated and how.
pub proof fn law_context_view(cx: Context, row: LitDef, i: int)
    ensures
        cx@.nodes.len() == cx.nodes@.len(),
        0 <= i < cx.nodes@.len() ==> cx@.nodes[i] == cx.nodes@[i]@,
        cx@.lit_defs.len() == cx.lit_defs@.len(),
        0 <= i < cx.lit_defs@.len() ==> cx@.lit_defs[i] == cx.lit_defs@[i]@,
        row@.name == row.name@ && row@.lit == row.lit@ && row@.ty == row.ty@ && row@.def
            == row.def@,
        cx@.mode == cx.mode,
        cx@.codegen_items == cx.codegen_items@,
        cx@.doc_header == cx.doc_header@,
{
}

/// The view of a group tells the path of the module and its items.
pub proof fn law_group_view(groups: Seq<ModGroup>, i: int)
    ensures
        crate::modules::group_views(groups).len() == groups.len(),
        0 <= i < groups.len() ==> crate::modules::group_views(groups)[i].path == texts(
            groups[i].path@,
        ),
        0 <= i < groups.len() ==> crate::modules::group_views(groups)[i].items == groups[i].items@,
{
}

/// What is looked up of a definition is what its node holds.
pub proof fn law_lookups(cx: ContextView, did: DefId)
    ensures
        cx.knows(did) <==> did < cx.nodes.len(),
        cx.item(did) == item_of(cx, did),
        cx.adjust(did) == adjustment(cx, did),
        cx.boxed(did) <==> told_to_box(cx, did),
        cx.rust_name(did) == name_of(cx, did),
        did < cx.nodes.len() ==> cx.node_tags(did) == cx.nodes[did as int].tags,
        did >= cx.nodes.len() ==> cx.node_tags(did) is None,
        adjustment(cx, did) is Some ==> cx.attrs(did) == adjustment(cx, did)->0.attrs
            && cx.nested_items(did) == adjustment(cx, did)->0.nested_items,
        adjustment(cx, did) is None ==> cx.attrs(did).len() == 0 && cx.nested_items(did).len() == 0,
{
}

} // verus!
