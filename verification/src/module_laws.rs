//! What holds of writing items, modules and files, said of the definitions alone.
use crate::backend::CodegenBackend;
use crate::check_laws::item_of;
use crate::codegen::{
    Codegen, CodegenItem, CodegenKind, direct_ok_at, direct_written_at, enum_written, item_ok,
    item_written, new_type_written, service_codes, service_written, stream_states, struct_written,
};
use crate::context::{ContextView, Mode, path_file_name};
use crate::laws::{direct_items, law_module_is_its_items};
use crate::modules::{
    Emission, ModGroupView, Output, all_checked, emit_ok, file_items, file_written, gathered,
    gen_ok, generated, grouping, items_of, items_ok, items_written, mod_emitted,
};
use crate::pkgs::{PkgNode, tree_of, write_out};
use crate::preflight::{direct_ok, lemma_common_depth};
use crate::render::{
    attrs_text, const_text, enum_ok, enum_text, file_text, nested_text, new_type_text, re_pub_text,
    service_text, struct_ok, struct_text,
};
use crate::rir::{DefId, EnumView, ItemView, MessageView, NewTypeView, ServiceView};
use crate::scalar::{checked, ready};
use crate::text::{Text, texts};
use vstd::prelude::*;

verus! {

/// The item, to be written where it stands.
pub open spec fn in_place(did: DefId) -> CodegenItem {
    CodegenItem { def_id: did, kind: CodegenKind::Direct }
}

/// The item, to be referred to.
pub open spec fn referred(did: DefId) -> CodegenItem {
    CodegenItem { def_id: did, kind: CodegenKind::RePub }
}

/// The stream once what an adjustment puts in front of an item has been written:
/// first the items that it adds, then the attributes, one to a line.
pub open spec fn fronted(cx: ContextView, did: DefId, before: Text) -> Text {
    before + nested_text(cx, did) + attrs_text(cx, did, "\n"@)
}

/// A struct is added to the stream, and the backend is called on what that gives.
pub proof fn law_struct_is_added<B: CodegenBackend>(
    b: B,
    cur: Option<DefId>,
    did: DefId,
    s: MessageView,
    before: Text,
    after: Text,
)
    ensures
        struct_written(b, cur, did, s, before, after) <==> b.struct_impl(
            cur,
            did,
            s,
            before + struct_text(b.context(), did, s),
            after,
        ),
{
}

/// An enum is added to the stream, and the backend is called on what that gives.
pub proof fn law_enum_is_added<B: CodegenBackend>(
    b: B,
    cur: Option<DefId>,
    did: DefId,
    e: EnumView,
    before: Text,
    after: Text,
)
    ensures
        enum_written(b, cur, did, e, before, after) <==> b.enum_impl(
            cur,
            did,
            e,
            before + enum_text(b.context(), did, e),
            after,
        ),
{
}

/// A new type is added to the stream, and the backend is called on what that gives.
pub proof fn law_new_type_is_added<B: CodegenBackend>(
    b: B,
    cur: Option<DefId>,
    did: DefId,
    t: NewTypeView,
    before: Text,
    after: Text,
)
    ensures
        new_type_written(b, cur, did, t, before, after) <==> b.newtype_impl(
            cur,
            did,
            t,
            before + new_type_text(b.context(), did, t),
            after,
        ),
{
}

/// Whether the backend may give these sources to the methods that the node of the
/// service lists, one source to each method.
pub open spec fn sources_of<B: CodegenBackend>(
    b: B,
    cur: Option<DefId>,
    did: DefId,
    codes: Seq<Text>,
) -> bool {
    &&& codes.len() == b.context().nodes[did as int].service_methods.len()
    &&& forall|i: int|
        0 <= i < codes.len() ==> b.service_method(
            cur,
            did,
            b.context().nodes[did as int].service_methods[i],
            #[trigger] codes[i],
        )
}

/// The trait of a service is added to the stream, with sources that the backend
/// gave for all its methods, and the backend is called on what that gives.
pub proof fn law_service_is_added<B: CodegenBackend>(
    b: B,
    cur: Option<DefId>,
    did: DefId,
    s: ServiceView,
    before: Text,
    after: Text,
)
    ensures
        service_written(b, cur, did, s, before, after) <==> exists|codes: Seq<Text>| #[trigger]
            sources_of(b, cur, did, codes) && b.service_impl(
                cur,
                did,
                s,
                before + service_text(b.context().nodes[did as int].rust_name, codes),
                after,
            ),
{
    assert forall|codes: Seq<Text>| #[trigger] sources_of(b, cur, did, codes) == service_codes(
        b,
        cur,
        did,
        codes,
    ) by {
        lemma_sources(b, cur, did, codes);
    }
    if service_written(b, cur, did, s, before, after) {
        let codes = choose|codes: Seq<Text>| #[trigger]
            service_codes(b, cur, did, codes) && b.service_impl(
                cur,
                did,
                s,
                before + service_text(b.context().rust_name(did), codes),
                after,
            );
        assert(sources_of(b, cur, did, codes));
    }
}

proof fn lemma_sources<B: CodegenBackend>(
    b: B,
    cur: Option<DefId>,
    did: DefId,
    codes: Seq<Text>,
)
    ensures
        sources_of(b, cur, did, codes) == service_codes(b, cur, did, codes),
{
}

/// An item is written as its kind asks for, behind what its adjustment puts in
/// front of it, and to the hooks it is the item that is being written. What does
/// not exist is not written.
pub proof fn law_item_takes_its_form<B: CodegenBackend>(
    b: B,
    did: DefId,
    before: Text,
    after: Text,
)
    requires
        !(item_of(b.context(), did) matches Some(ItemView::Mod(_))),
    ensures
        item_written(b, in_place(did), before, after) <==> match item_of(b.context(), did) {
            Some(ItemView::Message(s)) => struct_written(
                b,
                Some(did),
                did,
                s,
                fronted(b.context(), did, before),
                after,
            ),
            Some(ItemView::Enum(e)) => enum_written(
                b,
                Some(did),
                did,
                e,
                fronted(b.context(), did, before),
                after,
            ),
            Some(ItemView::Service(s)) => service_written(
                b,
                Some(did),
                did,
                s,
                fronted(b.context(), did, before),
                after,
            ),
            Some(ItemView::NewType(t)) => new_type_written(
                b,
                Some(did),
                did,
                t,
                fronted(b.context(), did, before),
                after,
            ),
            Some(ItemView::Const(c)) => const_text(b.context(), did, c) matches Some(def) && after
                == fronted(b.context(), did, before) + def,
            _ => false,
        },
{
    assert(b.context().item(did) == item_of(b.context(), did));
    let n: nat = 0;
    if direct_written_at(b, did, before, after, n) {
        assert(direct_written_at(b, in_place(did).def_id, before, after, n));
    }
    if item_written(b, in_place(did), before, after) {
        let fuel = choose|fuel: nat| #[trigger] direct_written_at(b, did, before, after, fuel);
        assert(direct_written_at(b, did, before, after, fuel));
    }
}

/// A module is written as its items are, one after the other, behind what its
/// adjustment puts in front of it.
pub proof fn law_module_takes_its_form<B: CodegenBackend>(
    b: B,
    did: DefId,
    before: Text,
    inner: Text,
)
    requires
        item_of(b.context(), did) matches Some(ItemView::Mod(_)),
    ensures
        item_written(
            b,
            in_place(did),
            before,
            fronted(b.context(), did, before) + inner,
        ) <==> items_written(
            b,
            Seq::new(
                item_of(b.context(), did)->0->Mod_0.items.len(),
                |i: int| in_place(item_of(b.context(), did)->0->Mod_0.items[i]),
            ),
            Seq::empty(),
            inner,
        ),
{
    assert(b.context().item(did) == item_of(b.context(), did));
    let ids = item_of(b.context(), did)->0->Mod_0.items;
    law_module_is_its_items(b, did, before, inner);
    assert(direct_items(ids) =~= Seq::new(ids.len(), |i: int| in_place(ids[i])));
}

/// Of an item that stands elsewhere only a reference is written; no hook is called,
/// and nothing is put in front of it.
pub proof fn law_reference_is_added<B: CodegenBackend>(
    b: B,
    did: DefId,
    before: Text,
    after: Text,
)
    ensures
        item_written(b, referred(did), before, after) <==> after == before + re_pub_text(
            b.context(),
            did,
        ),
{
}

/// Writing no items changes nothing, and writing one is writing it.
pub proof fn law_few_items<B: CodegenBackend>(
    b: B,
    item: CodegenItem,
    before: Text,
    after: Text,
)
    ensures
        items_written(b, Seq::empty(), before, after) <==> before == after,
        items_written(b, seq![item], before, after) <==> item_written(b, item, before, after),
{
    let none: Seq<CodegenItem> = Seq::empty();
    let one = seq![item];
    if before == after {
        let states = seq![before];
        assert(stream_states(states, before, none.len()));
        assert(states.last() == after);
        assert(items_written(b, none, before, after));
    }
    if item_written(b, item, before, after) {
        let states = seq![before, after];
        assert(stream_states(states, before, one.len()));
        assert(states.last() == after);
        assert(items_written(b, one, before, after));
    }
    if items_written(b, one, before, after) {
        let states = choose|states: Seq<Text>| #[trigger]
            stream_states(states, before, one.len()) && states.last() == after && forall|i: int|
                0 <= i < one.len() ==> item_written(b, #[trigger] one[i], states[i], states[i + 1]);
        assert(item_written(b, one[0], states[0], states[1]));
    }
}

/// Items that are written together are written some first and then the others.
pub proof fn law_items_part<B: CodegenBackend>(
    b: B,
    first: Seq<CodegenItem>,
    second: Seq<CodegenItem>,
    before: Text,
    after: Text,
)
    requires
        items_written(b, first + second, before, after),
    ensures
        exists|between: Text| #[trigger]
            items_written(b, first, before, between) && items_written(b, second, between, after),
{
    let items = first + second;
    let states = choose|states: Seq<Text>| #[trigger]
        stream_states(states, before, items.len()) && states.last() == after && forall|i: int|
            0 <= i < items.len() ==> item_written(b, #[trigger] items[i], states[i], states[i + 1]);
    let n = first.len() as int;
    let between = states[n];
    let s1 = states.take(n + 1);
    let s2 = states.skip(n);
    assert(stream_states(s1, before, first.len()));
    assert(s1.last() == between);
    assert forall|i: int| 0 <= i < first.len() implies item_written(
        b,
        #[trigger] first[i],
        s1[i],
        s1[i + 1],
    ) by {
        assert(items[i] == first[i]);
    }
    assert(items_written(b, first, before, between));
    assert(stream_states(s2, between, second.len()));
    assert(s2.last() == after);
    assert forall|i: int| 0 <= i < second.len() implies item_written(
        b,
        #[trigger] second[i],
        s2[i],
        s2[i + 1],
    ) by {
        assert(items[n + i] == second[i]);
        assert(item_written(b, items[n + i], states[n + i], states[n + i + 1]));
    }
    assert(items_written(b, second, between, after));
}

/// Items are checked one after the other, each with nothing settled beforehand,
/// and those that are only referred to are not checked.
pub proof fn law_checks_in_turn(cx: ContextView, items: Seq<CodegenItem>, did: DefId)
    ensures
        all_checked(cx, Seq::empty()) == cx,
        all_checked(cx, items.push(in_place(did))) == checked(
            all_checked(cx, items),
            Map::empty(),
            did,
        ),
        all_checked(cx, items.push(referred(did))) == all_checked(cx, items),
{
    assert(items.push(in_place(did)).drop_last() =~= items);
    assert(items.push(referred(did)).drop_last() =~= items);
}

/// In a module all items are checked before any is written, and they are written,
/// in order, to an empty stream by the backend that knows the outcome.
pub proof fn law_module_is_checked_first<B: CodegenBackend>(
    b0: B,
    items: Seq<CodegenItem>,
    b1: B,
    text: Text,
)
    ensures
        mod_emitted(b0, items, b1, text) <==> {
            &&& b1.context() == all_checked(b0.context(), items)
            &&& b1.rest() == b0.rest()
            &&& items_written(b1, items, Seq::empty(), text)
        },
{
}

/// The module of a definition is the path that its node holds; in a workspace,
/// that path is the crate and then the module.
pub proof fn law_module_path(cx: ContextView, did: DefId)
    requires
        cx.has_mod_key(did),
    ensures
        cx.mode is SingleFile ==> cx.mod_key(did) == cx.nodes[did as int].mod_path,
        cx.mode is Workspace ==> seq![cx.nodes[did as int].mod_path[0]] + cx.mod_key(did)
            == cx.nodes[did as int].mod_path,
{
    let path = cx.nodes[did as int].mod_path;
    if cx.mode is Workspace {
        assert(seq![path[0]] + path.drop_first() =~= path);
    }
}

/// A definition can be placed if and only if it is known and, in a workspace, its
/// path names a crate.
pub proof fn law_can_be_placed(cx: ContextView, did: DefId)
    ensures
        cx.has_mod_key(did) <==> did < cx.nodes.len() && (cx.mode is SingleFile
            || cx.nodes[did as int].mod_path.len() > 0),
{
}

/// Two definitions are written to the same module if and only if their paths
/// agree: in a file in all components, in a workspace in all but the first.
pub proof fn law_same_module(cx: ContextView, a: DefId, b: DefId)
    requires
        cx.has_mod_key(a),
        cx.has_mod_key(b),
    ensures
        ({
            let p = cx.nodes[a as int].mod_path;
            let q = cx.nodes[b as int].mod_path;
            let first = if cx.mode is Workspace {
                1int
            } else {
                0int
            };
            cx.mod_key(a) == cx.mod_key(b) <==> p.len() == q.len() && forall|i: int|
                first <= i < p.len() ==> #[trigger] p[i] == q[i]
        }),
{
    let p = cx.nodes[a as int].mod_path;
    let q = cx.nodes[b as int].mod_path;
    law_module_path(cx, a);
    law_module_path(cx, b);
    let x = cx.mod_key(a);
    let y = cx.mod_key(b);
    if cx.mode is Workspace {
        if x == y {
            assert forall|i: int| 1 <= i < p.len() implies #[trigger] p[i] == q[i] by {
                assert(p[i] == (seq![p[0]] + x)[i]);
                assert(q[i] == (seq![q[0]] + y)[i]);
            }
        }
        if p.len() == q.len() && forall|i: int| 1 <= i < p.len() ==> #[trigger] p[i] == q[i] {
            assert forall|i: int| 0 <= i < x.len() implies x[i] == y[i] by {
                assert(p[i + 1] == (seq![p[0]] + x)[i + 1]);
                assert(q[i + 1] == (seq![q[0]] + y)[i + 1]);
                assert(p[i + 1] == q[i + 1]);
            }
            assert(x =~= y);
        }
    } else if p.len() == q.len() && forall|i: int| 0 <= i < p.len() ==> #[trigger] p[i] == q[i] {
        assert(p =~= q);
    }
}

/// The items of a module among many are those whose module it is, as often and in
/// the order in which they are there.
pub proof fn law_items_of_module(
    cx: ContextView,
    items: Seq<CodegenItem>,
    item: CodegenItem,
    path: Seq<Text>,
)
    ensures
        items_of(cx, Seq::empty(), path) == Seq::<CodegenItem>::empty(),
        items_of(cx, items.push(item), path) == if cx.mod_key(item.def_id) == path {
            items_of(cx, items, path).push(item)
        } else {
            items_of(cx, items, path)
        },
{
    reveal(Seq::filter);
    assert(items.push(item).drop_last() =~= items);
}

/// The groups of items are the modules that have an item, each once, with the
/// items that are written to them.
pub proof fn law_groups(
    cx: ContextView,
    items: Seq<CodegenItem>,
    groups: Seq<ModGroupView>,
    i: int,
    j: int,
)
    requires
        grouping(cx, items, groups),
        0 <= i < groups.len(),
        0 <= j < groups.len(),
    ensures
        groups[i].items == items_of(cx, items, groups[i].path),
        groups[i].items.len() > 0,
        groups[i].path == groups[j].path ==> i == j,
        forall|k: int|
            0 <= k < items.len() ==> exists|g: int|
                0 <= g < groups.len() && (#[trigger] groups[g]).path == cx.mod_key(
                    (#[trigger] items[k]).def_id,
                ),
{
    if i < j {
        assert(groups[i].path != groups[j].path);
    } else if j < i {
        assert(groups[j].path != groups[i].path);
    }
}

/// A run over many items takes one module after the other, each with the backend
/// that the one before left, and writes their texts in the order of the tree that
/// is made of their paths.
pub proof fn law_run<B: CodegenBackend, F: Fn(&Vec<Vec<String>>) -> Vec<PkgNode>>(
    run: Emission<B>,
    items: Seq<CodegenItem>,
    from_pkgs: F,
    i: int,
)
    requires
        run.of(items, from_pkgs),
        0 <= i < run.groups.len(),
    ensures
        run.backends.len() == run.groups.len() + 1,
        run.codes.len() == run.groups.len(),
        grouping(run.backends[0].context(), items, run.groups),
        mod_emitted(run.backends[i], run.groups[i].items, run.backends[i + 1], run.codes[i]),
        made_of_all_paths(gathered(run.groups, run.codes), from_pkgs, run.keys, run.nodes),
        run.text() == write_out(gathered(run.groups, run.codes), run.nodes@).1,
{
    law_tree(gathered(run.groups, run.codes), from_pkgs, run.keys, run.nodes);
}

/// Whether the tree is made of the paths of all modules that have a text, each of
/// them once.
pub open spec fn made_of_all_paths<F: Fn(&Vec<Vec<String>>) -> Vec<PkgNode>>(
    pkgs: Map<Seq<Text>, Text>,
    from_pkgs: F,
    keys: Vec<Vec<String>>,
    nodes: Vec<PkgNode>,
) -> bool {
    &&& call_ensures(from_pkgs, (&keys,), nodes)
    &&& forall|i: int|
        0 <= i < keys@.len() ==> pkgs.contains_key(#[trigger] texts(keys@[i]@))
    &&& forall|i: int, j: int|
        0 <= i < j < keys@.len() ==> #[trigger] texts(keys@[i]@) != #[trigger] texts(keys@[j]@)
    &&& forall|path: Seq<Text>| #[trigger]
        pkgs.contains_key(path) ==> exists|i: int|
            0 <= i < keys@.len() && #[trigger] texts(keys@[i]@) == path
}

/// The tree is made of the paths of all modules that have a text, each once.
pub proof fn law_tree<F: Fn(&Vec<Vec<String>>) -> Vec<PkgNode>>(
    pkgs: Map<Seq<Text>, Text>,
    from_pkgs: F,
    keys: Vec<Vec<String>>,
    nodes: Vec<PkgNode>,
)
    requires
        tree_of(pkgs, from_pkgs, keys, nodes),
    ensures
        made_of_all_paths(pkgs, from_pkgs, keys, nodes),
{
    let paths = crate::pkgs::paths(keys@);
    assert forall|i: int| 0 <= i < keys@.len() implies pkgs.contains_key(
        #[trigger] texts(keys@[i]@),
    ) by {
        assert(paths[i] == texts(keys@[i]@));
        assert(paths.contains(paths[i]));
        assert(paths.to_set().contains(paths[i]));
    }
    assert forall|i: int, j: int| 0 <= i < j < keys@.len() implies #[trigger] texts(keys@[i]@)
        != #[trigger] texts(keys@[j]@) by {
        assert(paths[i] != paths[j]);
    }
    assert forall|path: Seq<Text>| #[trigger] pkgs.contains_key(path) implies exists|i: int|
        0 <= i < keys@.len() && #[trigger] texts(keys@[i]@) == path by {
        assert(paths.to_set().contains(path));
        let i = paths.index_of(path);
        assert(texts(keys@[i]@) == path);
    }
}

/// The file that is generated holds all items that the context asks for, in order,
/// each written where it stands.
pub proof fn law_file_items(cx: ContextView, i: int)
    ensures
        file_items(cx).len() == cx.codegen_items.len(),
        0 <= i < cx.codegen_items.len() ==> file_items(cx)[i] == in_place(cx.codegen_items[i]),
{
}

/// The text of the file is that of a run over these items, behind the head that
/// the context holds.
pub proof fn law_file_text<B: CodegenBackend, F: Fn(&Vec<Vec<String>>) -> Vec<PkgNode>>(
    b: B,
    from_pkgs: F,
    text: Text,
)
    ensures
        file_written(b, from_pkgs, text) <==> exists|run: Emission<B>| #[trigger]
            run.of(file_items(b.context()), from_pkgs) && run.backends[0] == b && text
                == file_text(b.context().doc_header, run.text()),
{
}

/// In a workspace the crates are to be written under the directory of the
/// workspace; otherwise the text is to be written to the path that the mode holds,
/// for the namespace that its file name begins with.
pub proof fn law_output<B: CodegenBackend, F: Fn(&Vec<Vec<String>>) -> Vec<PkgNode>>(
    cg: Codegen<B>,
    from_pkgs: F,
    output: Output<B>,
)
    requires
        gen_ok(cg.backend().context()),
        generated(cg, from_pkgs, output),
    ensures
        match cg.backend().context().mode {
            Mode::Workspace(info) => {
                &&& output is Workspace
                &&& output->Workspace_0.base_dir == info.dir
                &&& output->Workspace_0.codegen == cg
            },
            Mode::SingleFile { file_path } => {
                &&& output is File
                &&& output->file_path == file_path
                &&& file_written(cg.backend(), from_pkgs, output->text@)
                &&& path_file_name(file_path) is Some
                &&& output->ns_name@.is_prefix_of(path_file_name(file_path)->0)
                &&& !output->ns_name@.contains('.')
                &&& output->ns_name@.len() < path_file_name(file_path)->0.len()
                    ==> path_file_name(file_path)->0[output->ns_name@.len() as int] == '.'
            },
        },
{
    if let Mode::SingleFile { file_path } = cg.backend().context().mode {
        crate::laws::law_stem(path_file_name(file_path)->0);
    }
}

/// In a workspace all can be generated; a file can if its path names one, and all
/// items can be placed, checked and written.
pub proof fn law_can_be_generated(cx: ContextView)
    ensures
        gen_ok(cx) <==> match cx.mode {
            Mode::Workspace(_) => true,
            Mode::SingleFile { file_path } => path_file_name(file_path) is Some && items_ok(
                cx,
                file_items(cx),
            ),
        },
{
}

/// Items can be written together if each can be placed, written and, where it is
/// written where it stands, checked.
pub proof fn law_items_can_be_written(cx: ContextView, items: Seq<CodegenItem>)
    ensures
        items_ok(cx, items) <==> forall|i: int|
            0 <= i < items.len() ==> cx.has_mod_key((#[trigger] items[i]).def_id) && item_ok(
                cx,
                items[i],
            ) && (items[i].kind is Direct ==> ready(cx, Map::empty(), items[i].def_id)),
{
    if items_ok(cx, items) {
        assert forall|i: int| 0 <= i < items.len() implies cx.has_mod_key(
            (#[trigger] items[i]).def_id,
        ) && item_ok(cx, items[i]) && (items[i].kind is Direct ==> ready(
            cx,
            Map::empty(),
            items[i].def_id,
        )) by {
            assert(emit_ok(cx, items[i]));
        }
    }
}

/// An item can be written if it exists and its text can be made; a service and a
/// new type always, a constant if it has a definition; and only what is known can
/// be referred to.
pub proof fn law_item_can_be_written(cx: ContextView, did: DefId)
    ensures
        item_ok(cx, referred(did)) <==> did < cx.nodes.len(),
        !(item_of(cx, did) matches Some(ItemView::Mod(_))) ==> (item_ok(cx, in_place(did))
            <==> match item_of(cx, did) {
            Some(ItemView::Message(s)) => struct_ok(cx, did, s),
            Some(ItemView::Enum(e)) => enum_ok(cx, did, e),
            Some(ItemView::Const(c)) => const_text(cx, did, c) is Some,
            Some(_) => true,
            None => false,
        }),
{
    assert(cx.item(did) == item_of(cx, did));
    let n: nat = 0;
    if !(item_of(cx, did) matches Some(ItemView::Mod(_))) {
        if direct_ok_at(cx, did, n) {
            assert(direct_ok_at(cx, in_place(did).def_id, n));
        }
        if item_ok(cx, in_place(did)) {
            let f = choose|f: nat| direct_ok_at(cx, did, f);
            assert(direct_ok_at(cx, did, f));
        }
    }
}

/// A module can be written if and only if all its items can.
pub proof fn law_module_can_be_written(cx: ContextView, did: DefId)
    requires
        item_of(cx, did) matches Some(ItemView::Mod(_)),
    ensures
        item_ok(cx, in_place(did)) <==> forall|i: int|
            0 <= i < item_of(cx, did)->0->Mod_0.items.len() ==> item_ok(
                cx,
                in_place(#[trigger] item_of(cx, did)->0->Mod_0.items[i]),
            ),
{
    assert(cx.item(did) == item_of(cx, did));
    let ids = item_of(cx, did)->0->Mod_0.items;
    if item_ok(cx, in_place(did)) {
        let f = choose|f: nat| direct_ok_at(cx, did, f);
        assert forall|i: int| 0 <= i < ids.len() implies item_ok(cx, in_place(#[trigger] ids[i])) by {
            assert(direct_ok_at(cx, in_place(ids[i]).def_id, (f - 1) as nat));
        }
    } else if forall|i: int| 0 <= i < ids.len() ==> item_ok(cx, in_place(#[trigger] ids[i])) {
        assert forall|i: int| 0 <= i < ids.len() implies direct_ok(cx, #[trigger] ids[i]) by {
            assert(item_ok(cx, in_place(ids[i])));
        }
        let f = lemma_common_depth(cx, ids);
        let n: nat = f + 1;
        assert((n - 1) as nat == f);
        assert(direct_ok_at(cx, in_place(did).def_id, n));
    }
}

} // verus!
