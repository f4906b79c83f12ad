//! Writing many items: into modules, and the modules into a file.
use crate::backend::CodegenBackend;
use crate::codegen::{
    Codegen, CodegenItem, CodegenKind, direct_ok_at, item_ok, item_written, stream_states,
};
use crate::context::{Context, ContextView, Mode, file_name_of, path_file_name};
use crate::pkgs::{
    PkgNode, append_pkg, new_pkgs, no_texts, pkg_texts, put_together, tree_of, write_out,
};
use crate::render::{file_code, file_text};
use crate::rir::{DefId, ItemView};
use crate::scalar::{checked, ready, ready_at};
use crate::scalar_lemmas::{lemma_checked_frame, lemma_ready_after};
use crate::text::{Text, texts};
use itertools::Itertools;
use std::collections::HashMap;
use std::path::PathBuf;
use vstd::prelude::*;

verus! {

/// The items that are written to one module, in order.
#[derive(Debug)]
pub struct ModGroup {
    pub path: Vec<String>,
    pub items: Vec<CodegenItem>,
}

/// View of [`ModGroup`].
pub struct ModGroupView {
    pub path: Seq<Text>,
    pub items: Seq<CodegenItem>,
}

impl View for ModGroup {
    type V = ModGroupView;

    open spec fn view(&self) -> ModGroupView {
        ModGroupView { path: texts(self.path@), items: self.items@ }
    }
}

/// The views of a sequence of groups.
pub open spec fn group_views(groups: Seq<ModGroup>) -> Seq<ModGroupView> {
    Seq::new(groups.len(), |i: int| groups[i]@)
}

/// The items of `items` that are written to the module `path`, in order.
pub open spec fn items_of(
    cx: ContextView,
    items: Seq<CodegenItem>,
    path: Seq<Text>,
) -> Seq<CodegenItem> {
    items.filter(|item: CodegenItem| cx.mod_key(item.def_id) == path)
}

/// Whether `groups` are the items, parted by the module that they are written
/// to: one group for each module that has an item, in any order, and in each
/// group the items in the order that they had.
pub open spec fn grouping(
    cx: ContextView,
    items: Seq<CodegenItem>,
    groups: Seq<ModGroupView>,
) -> bool {
    &&& forall|i: int, j: int|
        0 <= i < j < groups.len() ==> (#[trigger] groups[i]).path != (#[trigger] groups[j]).path
    &&& forall|i: int|
        0 <= i < groups.len() ==> {
            &&& (#[trigger] groups[i]).items == items_of(cx, items, groups[i].path)
            &&& groups[i].items.len() > 0
        }
    &&& forall|k: int|
        0 <= k < items.len() ==> exists|i: int|
            0 <= i < groups.len() && (#[trigger] groups[i]).path == cx.mod_key(
                (#[trigger] items[k]).def_id,
            )
}

/// Calls `itertools::Itertools::into_group_map_by` with the module of an item as
/// its key, and walks the map that this gives: one group comes up for each
/// module that has an item, in no order that could be relied upon, and in each
/// group the items keep their order.
#[verifier::external_body]
fn group_by_mod(cx: &Context, items: Vec<CodegenItem>) -> (groups: Vec<ModGroup>)
    requires
        forall|i: int| 0 <= i < items@.len() ==> cx@.has_mod_key((#[trigger] items@[i]).def_id),
    ensures
        grouping(cx@, items@, group_views(groups@)),
{
    items.into_iter()
        .into_group_map_by(|item| cx.mod_key(item.def_id))
        .into_iter()
        .map(|(path, items)| ModGroup { path, items })
        .collect()
}

impl<B: CodegenBackend> Codegen<B> {
    /// The items, parted by the module that they are written to.
    pub fn group_items(&self, items: Vec<CodegenItem>) -> (groups: Vec<ModGroup>)
        requires
            forall|i: int|
                0 <= i < items@.len() ==> self.backend().context().has_mod_key(
                    (#[trigger] items@[i]).def_id,
                ),
        ensures
            grouping(self.backend().context(), items@, group_views(groups@)),
    {
        group_by_mod(self.cx(), items)
    }
}

/// The context once the items that are written where they stand have been
/// checked, one after the other.
pub open spec fn all_checked(cx: ContextView, items: Seq<CodegenItem>) -> ContextView
    decreases items.len(),
{
    if items.len() == 0 {
        cx
    } else {
        let before = all_checked(cx, items.drop_last());
        match items.last().kind {
            CodegenKind::Direct => checked(before, Map::empty(), items.last().def_id),
            CodegenKind::RePub => before,
        }
    }
}

/// Whether an item can be checked and written.
pub open spec fn emit_ok(cx: ContextView, item: CodegenItem) -> bool {
    &&& item_ok(cx, item)
    &&& item.kind is Direct ==> ready(cx, Map::empty(), item.def_id)
}

/// Whether items can all be placed, checked and written.
pub open spec fn items_ok(cx: ContextView, items: Seq<CodegenItem>) -> bool {
    forall|i: int|
        0 <= i < items.len() ==> {
            &&& cx.has_mod_key((#[trigger] items[i]).def_id)
            &&& emit_ok(cx, items[i])
        }
}

/// What may become of the stream when the items are written one after the other.
pub open spec fn items_written<B: CodegenBackend>(
    b: B,
    items: Seq<CodegenItem>,
    before: Text,
    after: Text,
) -> bool {
    exists|states: Seq<Text>| #[trigger]
        stream_states(states, before, items.len()) && states.last() == after && forall|i: int|
            0 <= i < items.len() ==> item_written(
                b,
                #[trigger] items[i],
                states[i],
                states[i + 1],
            )
}

/// Whether a module with these items may have this text, when the backend is
/// `b0` before the items are checked and `b1` after: no more than what the
/// backend knows of the program changes in between.
pub open spec fn mod_emitted<B: CodegenBackend>(
    b0: B,
    items: Seq<CodegenItem>,
    b1: B,
    text: Text,
) -> bool {
    &&& b1.context() == all_checked(b0.context(), items)
    &&& b1.rest() == b0.rest()
    &&& items_written(b1, items, Seq::empty(), text)
}

/// The texts of modules by their paths.
pub open spec fn gathered(groups: Seq<ModGroupView>, codes: Seq<Text>) -> Map<Seq<Text>, Text>
    decreases groups.len(),
{
    if groups.len() == 0 {
        no_texts()
    } else {
        gathered(groups.drop_last(), codes.drop_last()).insert(groups.last().path, codes.last())
    }
}

/// How a run over many items went.
pub struct Emission<B> {
    /// The modules, in the order that they were written.
    pub groups: Seq<ModGroupView>,
    /// The backend before, between and after the modules.
    pub backends: Seq<B>,
    /// The texts of the modules.
    pub codes: Seq<Text>,
    /// The paths of the modules, in the order that they were asked for.
    pub keys: Vec<Vec<String>>,
    /// The tree that was made of the paths.
    pub nodes: Vec<PkgNode>,
}

impl<B: CodegenBackend> Emission<B> {
    /// What the run wrote: the texts of the modules in the order of the tree.
    pub open spec fn text(self) -> Text {
        write_out(gathered(self.groups, self.codes), self.nodes@).1
    }

    /// Whether a run over these items may go so, where `from_pkgs` makes a tree
    /// of the paths of the modules.
    pub open spec fn of<F: Fn(&Vec<Vec<String>>) -> Vec<PkgNode>>(
        self,
        items: Seq<CodegenItem>,
        from_pkgs: F,
    ) -> bool {
        &&& self.backends.len() == self.groups.len() + 1
        &&& self.codes.len() == self.groups.len()
        &&& grouping(self.backends[0].context(), items, self.groups)
        &&& forall|i: int|
            0 <= i < self.groups.len() ==> mod_emitted(
                self.backends[i],
                (#[trigger] self.groups[i]).items,
                self.backends[i + 1],
                self.codes[i],
            )
        &&& tree_of(gathered(self.groups, self.codes), from_pkgs, self.keys, self.nodes)
    }
}

proof fn lemma_direct_ok_after(
    cx: ContextView,
    rec: crate::scalar::Record,
    d: DefId,
    e: DefId,
    f: nat,
)
    requires
        ready(cx, rec, d),
        direct_ok_at(cx, e, f),
    ensures
        direct_ok_at(checked(cx, rec, d), e, f),
    decreases f,
{
    let cx1 = checked(cx, rec, d);
    assert forall|did: DefId| #[trigger] cx1.knows(did) == cx.knows(did) by {
        lemma_checked_frame(cx, rec, d, did);
    }
    lemma_checked_frame(cx, rec, d, e);
    match cx.item(e) {
        Some(ItemView::Message(s)) => {
            let s1 = cx1.item(e)->0->Message_0;
            assert forall|i: int| 0 <= i < s1.fields.len() implies cx1.knows(
                (#[trigger] s1.fields[i]).did,
            ) by {
                assert(s1.fields[i].did == s.fields[i].did);
                assert(cx.knows(s.fields[i].did));
            }
        },
        Some(ItemView::Mod(m)) => {
            assert forall|i: int| 0 <= i < m.items.len() implies direct_ok_at(
                cx1,
                #[trigger] m.items[i],
                (f - 1) as nat,
            ) by {
                lemma_direct_ok_after(cx, rec, d, m.items[i], (f - 1) as nat);
            }
        },
        _ => {},
    }
}

/// What could be checked and written before a check can be after it.
proof fn lemma_emit_ok_after(cx: ContextView, d: DefId, item: CodegenItem)
    requires
        ready(cx, Map::empty(), d),
        emit_ok(cx, item),
    ensures
        emit_ok(checked(cx, Map::empty(), d), item),
{
    match item.kind {
        CodegenKind::Direct => {
            let f = choose|f: nat| direct_ok_at(cx, item.def_id, f);
            lemma_direct_ok_after(cx, Map::empty(), d, item.def_id, f);
            let g = choose|g: nat| ready_at(cx, Map::empty(), item.def_id, g);
            lemma_ready_after(cx, Map::empty(), d, Map::empty(), item.def_id, g);
        },
        CodegenKind::RePub => {
            lemma_checked_frame(cx, Map::empty(), d, item.def_id);
        },
    }
}

/// What could be checked and written before many checks can be after them.
pub(crate) proof fn lemma_emit_ok_after_all(
    cx: ContextView,
    items: Seq<CodegenItem>,
    item: CodegenItem,
)
    requires
        forall|i: int| 0 <= i < items.len() ==> emit_ok(cx, #[trigger] items[i]),
        emit_ok(cx, item),
    ensures
        emit_ok(all_checked(cx, items), item),
    decreases items.len(),
{
    if items.len() > 0 {
        let less = items.drop_last();
        assert forall|i: int| 0 <= i < less.len() implies emit_ok(cx, #[trigger] less[i]) by {
            assert(less[i] == items[i]);
        }
        lemma_emit_ok_after_all(cx, less, item);
        assert(emit_ok(cx, items[items.len() - 1]));
        lemma_emit_ok_after_all(cx, less, items.last());
        if items.last().kind is Direct {
            lemma_emit_ok_after(all_checked(cx, less), items.last().def_id, item);
        }
    }
}

pub(crate) proof fn lemma_gathered(groups: Seq<ModGroupView>, codes: Seq<Text>, path: Seq<Text>)
    ensures
        gathered(groups, codes).contains_key(path) <==> exists|i: int|
            0 <= i < groups.len() && (#[trigger] groups[i]).path == path,
    decreases groups.len(),
{
    if groups.len() > 0 {
        let less = groups.drop_last();
        lemma_gathered(less, codes.drop_last(), path);
        if groups.last().path == path {
            assert(groups[groups.len() - 1].path == path);
        }
        if exists|i: int| 0 <= i < less.len() && (#[trigger] less[i]).path == path {
            let i = choose|i: int| 0 <= i < less.len() && (#[trigger] less[i]).path == path;
            assert(groups[i].path == path);
        }
        if exists|i: int| 0 <= i < groups.len() && (#[trigger] groups[i]).path == path {
            let i = choose|i: int| 0 <= i < groups.len() && (#[trigger] groups[i]).path == path;
            if i < less.len() {
                assert(less[i].path == path);
            }
        }
    }
}

fn clone_path(path: &Vec<String>) -> (res: Vec<String>)
    ensures
        texts(res@) == texts(path@),
{
    let mut res: Vec<String> = Vec::new();
    let mut i: usize = 0;
    while i < path.len()
        invariant
            i <= path@.len(),
            texts(res@) == texts(path@).take(i as int),
        decreases path@.len() - i,
    {
        let ghost before = res@;
        res.push(path[i].clone());
        assert(texts(res@) =~= texts(before).push(texts(path@)[i as int]));
        i += 1;
        assert(texts(res@) =~= texts(path@).take(i as int));
    }
    assert(texts(path@).take(i as int) =~= texts(path@));
    res
}

impl<B: CodegenBackend> Codegen<B> {
    /// Checks the items that are written where they stand, each on its own.
    pub fn check_items(&mut self, items: &Vec<CodegenItem>)
        requires
            forall|i: int|
                0 <= i < items@.len() ==> emit_ok(
                    old(self).backend().context(),
                    #[trigger] items@[i],
                ),
        ensures
            final(self).backend().context() == all_checked(
                old(self).backend().context(),
                items@,
            ),
            final(self).backend().rest() == old(self).backend().rest(),
    {
        let ghost cx0 = self.backend().context();
        let mut i: usize = 0;
        assert(items@.take(0) =~= Seq::empty());
        while i < items.len()
            invariant
                cx0 == old(self).backend().context(),
                forall|i: int| 0 <= i < items@.len() ==> emit_ok(cx0, #[trigger] items@[i]),
                i <= items@.len(),
                self.backend().context() == all_checked(cx0, items@.take(i as int)),
                self.backend().rest() == old(self).backend().rest(),
            decreases items@.len() - i,
        {
            let item = items[i];
            proof {
                let done = items@.take(i as int);
                assert forall|j: int| 0 <= j < done.len() implies emit_ok(
                    cx0,
                    #[trigger] done[j],
                ) by {
                    assert(done[j] == items@[j]);
                }
                assert(emit_ok(cx0, items@[i as int]));
                lemma_emit_ok_after_all(cx0, done, item);
                assert(items@.take(i + 1).drop_last() =~= done);
                assert(items@.take(i + 1).last() == item);
            }
            match item.kind {
                CodegenKind::Direct => {
                    let mut record: HashMap<DefId, bool> = HashMap::new();
                    self.check_scalar_ty(item.def_id, &mut record);
                },
                CodegenKind::RePub => {},
            }
            i += 1;
        }
        assert(items@.take(i as int) =~= items@);
    }

    /// Writes the items one after the other.
    pub fn write_all(&self, stream: &mut String, items: &Vec<CodegenItem>)
        requires
            forall|i: int|
                0 <= i < items@.len() ==> item_ok(self.backend().context(), #[trigger] items@[i]),
        ensures
            items_written(self.backend(), items@, old(stream)@, final(stream)@),
    {
        let ghost mut states: Seq<Text> = seq![stream@];
        let mut i: usize = 0;
        while i < items.len()
            invariant
                forall|i: int|
                    0 <= i < items@.len() ==> item_ok(
                        self.backend().context(),
                        #[trigger] items@[i],
                    ),
                i <= items@.len(),
                stream_states(states, old(stream)@, i as nat),
                states.last() == stream@,
                forall|j: int|
                    0 <= j < i ==> item_written(
                        self.backend(),
                        #[trigger] items@[j],
                        states[j],
                        states[j + 1],
                    ),
            decreases items@.len() - i,
        {
            self.write_item(stream, items[i]);
            proof {
                let before = states;
                states = before.push(stream@);
                assert forall|j: int| 0 <= j < i + 1 implies item_written(
                    self.backend(),
                    #[trigger] items@[j],
                    states[j],
                    states[j + 1],
                ) by {
                    if j < i {
                        assert(states[j] == before[j] && states[j + 1] == before[j + 1]);
                    }
                }
            }
            i += 1;
        }
    }

    /// The text of a module with these items: they are checked, then written.
    pub fn write_mod(&mut self, items: &Vec<CodegenItem>) -> (code: String)
        requires
            forall|i: int|
                0 <= i < items@.len() ==> emit_ok(
                    old(self).backend().context(),
                    #[trigger] items@[i],
                ),
        ensures
            mod_emitted(old(self).backend(), items@, final(self).backend(), code@),
    {
        let ghost cx0 = self.backend().context();
        self.check_items(items);
        proof {
            assert forall|i: int| 0 <= i < items@.len() implies item_ok(
                self.backend().context(),
                #[trigger] items@[i],
            ) by {
                assert(emit_ok(cx0, items@[i]));
                lemma_emit_ok_after_all(cx0, items@, items@[i]);
            }
        }
        let mut code = String::new();
        self.write_all(&mut code, items);
        code
    }
}

/// What is left of a sequence after a filter was in it before.
pub(crate) proof fn lemma_filter_from(
    items: Seq<CodegenItem>,
    kept: spec_fn(CodegenItem) -> bool,
    i: int,
)
    requires
        0 <= i < items.filter(kept).len(),
    ensures
        kept(items.filter(kept)[i]),
        exists|k: int| 0 <= k < items.len() && #[trigger] items[k] == items.filter(kept)[i],
    decreases items.len(),
{
    reveal(Seq::filter);
    let less = items.drop_last();
    if i < less.filter(kept).len() {
        lemma_filter_from(less, kept, i);
        let k = choose|k: int| 0 <= k < less.len() && #[trigger] less[k] == less.filter(kept)[i];
        assert(items[k] == less[k]);
    } else {
        assert(items[items.len() - 1] == items.filter(kept)[i]);
    }
}

/// The items of a group can be checked and written if all items can.
proof fn lemma_group_ok(
    cx0: ContextView,
    items: Seq<CodegenItem>,
    groups: Seq<ModGroupView>,
    i: int,
    cx: ContextView,
)
    requires
        grouping(cx0, items, groups),
        0 <= i < groups.len(),
        forall|k: int| 0 <= k < items.len() ==> emit_ok(cx, #[trigger] items[k]),
    ensures
        forall|k: int| 0 <= k < groups[i].items.len() ==> emit_ok(cx, #[trigger] groups[i].items[k]),
{
    let kept = |item: CodegenItem| cx0.mod_key(item.def_id) == groups[i].path;
    assert(groups[i].items == items.filter(kept));
    assert forall|k: int| 0 <= k < groups[i].items.len() implies emit_ok(
        cx,
        #[trigger] groups[i].items[k],
    ) by {
        lemma_filter_from(items, kept, k);
    }
}

/// Where a workspace is written, and with what.
pub struct Workspace<B> {
    pub base_dir: PathBuf,
    pub codegen: Codegen<B>,
}

impl<B> Workspace<B> {
    /// A workspace in this directory.
    pub fn new(base_dir: PathBuf, codegen: Codegen<B>) -> (ws: Self)
        ensures
            ws.base_dir == base_dir,
            ws.codegen == codegen,
    {
        Workspace { base_dir, codegen }
    }
}

/// Specifies `<std::path::PathBuf as Clone>::clone`: the clone is the same path.
pub assume_specification[ <PathBuf as Clone>::clone ](path: &PathBuf) -> (res: PathBuf)
    ensures
        res == *path,
;

/// The number of characters in front of the first full stop.
pub open spec fn stem_len(name: Text) -> nat
    decreases name.len(),
{
    if name.len() == 0 || name[0] == '.' {
        0
    } else {
        1 + stem_len(name.drop_first())
    }
}

/// A file name up to its first full stop, or all of it if it has none.
pub open spec fn stem(name: Text) -> Text {
    name.take(stem_len(name) as int)
}

/// The name of the namespace that a file of this name is for.
pub fn namespace_name(file_name: &str) -> (ns_name: String)
    ensures
        ns_name@ == stem(file_name@),
{
    let n = file_name.unicode_len();
    let mut i: usize = 0;
    assert(file_name@.skip(0) =~= file_name@);
    while i < n && file_name.get_char(i) != '.'
        invariant
            n == file_name@.len(),
            i <= n,
            stem_len(file_name@) == i + stem_len(file_name@.skip(i as int)),
        decreases n - i,
    {
        assert(file_name@.skip(i as int).drop_first() =~= file_name@.skip(i + 1));
        i += 1;
    }
    file_name.substring_char(0, i).to_owned()
}

/// What there is to do with the output.
pub enum Output<B> {
    /// Write the crates of the workspace.
    Workspace(Workspace<B>),
    /// Write the text, which is for this namespace, to the file, and format it.
    File { file_path: PathBuf, ns_name: String, text: String },
}

/// The items that a backend is asked to generate.
pub open spec fn file_items(cx: ContextView) -> Seq<CodegenItem> {
    Seq::new(
        cx.codegen_items.len(),
        |i: int| CodegenItem { def_id: cx.codegen_items[i], kind: CodegenKind::Direct },
    )
}

/// Whether all that a backend is asked to generate can be placed, checked and
/// written.
pub open spec fn file_ok(cx: ContextView) -> bool {
    items_ok(cx, file_items(cx))
}

/// Whether the file that a backend is asked to generate may have this text.
pub open spec fn file_written<
    B: CodegenBackend,
    F: Fn(&Vec<Vec<String>>) -> Vec<PkgNode>,
>(b: B, from_pkgs: F, text: Text) -> bool {
    exists|run: Emission<B>| #[trigger]
        run.of(file_items(b.context()), from_pkgs) && run.backends[0] == b && text == file_text(
            b.context().doc_header,
            run.text(),
        )
}

/// Whether the output can be generated: for a file, its path must name one, and
/// all that goes into it must be possible to place, check and write.
pub open spec fn gen_ok(cx: ContextView) -> bool {
    cx.mode matches Mode::SingleFile { file_path } ==> {
        &&& path_file_name(file_path) is Some
        &&& file_ok(cx)
    }
}

/// Whether `output` may be what there is to do: in a workspace, to write its
/// crates under the directory that the mode names; for a file, to write the text
/// of all items to the path that the mode names. The namespace is named after the
/// file that the path leads to.
pub open spec fn generated<B: CodegenBackend, F: Fn(&Vec<Vec<String>>) -> Vec<PkgNode>>(
    cg: Codegen<B>,
    from_pkgs: F,
    output: Output<B>,
) -> bool {
    match cg.backend().context().mode {
        Mode::Workspace(info) => output == Output::Workspace(
            Workspace { base_dir: info.dir, codegen: cg },
        ),
        Mode::SingleFile { file_path } => output matches Output::File {
            file_path: path,
            ns_name,
            text,
        } && path == file_path && ns_name@ == stem(path_file_name(file_path)->0) && file_written(
            cg.backend(),
            from_pkgs,
            text@,
        ),
    }
}

impl Context {
    /// The items to generate code for.
    pub fn items_to_generate(&self) -> (items: Vec<CodegenItem>)
        ensures
            items@ == file_items(self@),
    {
        let mut items: Vec<CodegenItem> = Vec::new();
        let mut i: usize = 0;
        while i < self.codegen_items.len()
            invariant
                i <= self.codegen_items@.len(),
                items@ == file_items(self@).take(i as int),
            decreases self.codegen_items@.len() - i,
        {
            items.push(CodegenItem::from(self.codegen_items[i]));
            i += 1;
            assert(items@ =~= file_items(self@).take(i as int));
        }
        assert(items@ =~= file_items(self@));
        items
    }
}

impl<B: CodegenBackend> Codegen<B> {
    /// Writes items: each to its module, and the modules in the order of the
    /// tree that `from_pkgs` makes of their paths.
    pub fn write_items<F: Fn(&Vec<Vec<String>>) -> Vec<PkgNode>>(
        &mut self,
        stream: &mut String,
        items: Vec<CodegenItem>,
        from_pkgs: F,
    )
        requires
            items_ok(old(self).backend().context(), items@),
            forall|keys: &Vec<Vec<String>>| call_requires(from_pkgs, (keys,)),
        ensures
            exists|run: Emission<B>| #[trigger]
                run.of(items@, from_pkgs) && run.backends[0] == old(self).backend()
                    && run.backends.last() == final(self).backend() && final(stream)@ == old(
                    stream,
                )@ + run.text(),
            final(self).backend().rest() == old(self).backend().rest(),
    {
        let ghost items0 = items@;
        let ghost cx0 = self.backend().context();
        let groups = self.group_items(items);
        let ghost views = group_views(groups@);
        let mut pkgs = new_pkgs();
        let ghost mut backends: Seq<B> = seq![self.backend()];
        let ghost mut codes: Seq<Text> = Seq::empty();
        let mut i: usize = 0;
        assert(views.take(0) =~= Seq::empty());
        while i < groups.len()
            invariant
                views == group_views(groups@),
                grouping(cx0, items0, views),
                i <= groups@.len(),
                backends.len() == i + 1,
                codes.len() == i,
                backends[0] == old(self).backend(),
                backends.last() == self.backend(),
                self.backend().rest() == old(self).backend().rest(),
                forall|k: int|
                    0 <= k < items0.len() ==> emit_ok(
                        self.backend().context(),
                        #[trigger] items0[k],
                    ),
                forall|j: int|
                    0 <= j < i ==> mod_emitted(
                        backends[j],
                        (#[trigger] views[j]).items,
                        backends[j + 1],
                        codes[j],
                    ),
                pkg_texts(pkgs) == gathered(views.take(i as int), codes),
            decreases groups@.len() - i,
        {
            let ghost cx = self.backend().context();
            let group = &groups[i];
            assert(views[i as int] == group@);
            proof {
                lemma_group_ok(cx0, items0, views, i as int, cx);
            }
            let code = self.write_mod(&group.items);
            proof {
                assert forall|k: int| 0 <= k < items0.len() implies emit_ok(
                    self.backend().context(),
                    #[trigger] items0[k],
                ) by {
                    lemma_emit_ok_after_all(cx, group.items@, items0[k]);
                }
                lemma_gathered(views.take(i as int), codes, views[i as int].path);
                assert(!pkg_texts(pkgs).contains_key(views[i as int].path)) by {
                    if pkg_texts(pkgs).contains_key(views[i as int].path) {
                        let j = choose|j: int|
                            0 <= j < views.take(i as int).len() && (#[trigger] views.take(
                                i as int,
                            )[j]).path == views[i as int].path;
                        assert(views[j].path != views[i as int].path);
                    }
                }
                assert(Seq::<char>::empty() + code@ =~= code@);
            }
            append_pkg(&mut pkgs, clone_path(&group.path), code.as_str());
            proof {
                let before = backends;
                let codes_before = codes;
                backends = before.push(self.backend());
                codes = codes_before.push(code@);
                assert forall|j: int| 0 <= j < i + 1 implies mod_emitted(
                    backends[j],
                    (#[trigger] views[j]).items,
                    backends[j + 1],
                    codes[j],
                ) by {
                    if j < i {
                        assert(backends[j] == before[j] && backends[j + 1] == before[j + 1]);
                        assert(codes[j] == codes_before[j]);
                    }
                }
                assert(views.take(i + 1).drop_last() =~= views.take(i as int));
                assert(codes.drop_last() =~= codes_before);
            }
            i += 1;
        }
        assert(views.take(i as int) =~= views);
        put_together(pkgs, stream, from_pkgs);
        proof {
            let (keys, nodes) = choose|keys: Vec<Vec<String>>, nodes: Vec<PkgNode>| #[trigger]
                tree_of(gathered(views, codes), from_pkgs, keys, nodes) && stream@ == old(stream)@
                    + write_out(gathered(views, codes), nodes@).1;
            let run = Emission { groups: views, backends, codes, keys, nodes };
            assert(run.of(items0, from_pkgs));
        }
    }

    /// The text of the file with all items that are to be generated.
    pub fn write_file<F: Fn(&Vec<Vec<String>>) -> Vec<PkgNode>>(
        self,
        _ns_name: String,
        from_pkgs: F,
    ) -> (text: String)
        requires
            file_ok(self.backend().context()),
            forall|keys: &Vec<Vec<String>>| call_requires(from_pkgs, (keys,)),
        ensures
            file_written(self.backend(), from_pkgs, text@),
    {
        let mut this = self;
        let items = this.cx().items_to_generate();
        let mut stream = String::new();
        let ghost items0 = items@;
        let doc = this.cx().doc_header.clone();
        this.write_items(&mut stream, items, from_pkgs);
        let ghost run = choose|run: Emission<B>| #[trigger]
            run.of(items0, from_pkgs) && run.backends[0] == self.backend() && stream@ == Seq::<
                char,
            >::empty() + run.text();
        assert(Seq::<char>::empty() + run.text() =~= run.text());
        file_code(doc.as_str(), stream.as_str())
    }

    /// A workspace in this directory, to be written.
    pub fn write_workspace(self, base_dir: PathBuf) -> (ws: Workspace<B>)
        ensures
            ws.base_dir == base_dir,
            ws.codegen == self,
    {
        Workspace::new(base_dir, self)
    }

    /// What there is to do with the output, in the form that the mode asks for.
    pub fn gen<F: Fn(&Vec<Vec<String>>) -> Vec<PkgNode>>(self, from_pkgs: F) -> (output: Output<B>)
        requires
            gen_ok(self.backend().context()),
            forall|keys: &Vec<Vec<String>>| call_requires(from_pkgs, (keys,)),
        ensures
            generated(self, from_pkgs, output),
    {
        match &self.cx().mode {
            Mode::Workspace(info) => {
                let dir = info.dir.clone();
                Output::Workspace(self.write_workspace(dir))
            },
            Mode::SingleFile { file_path } => {
                let file_path = file_path.clone();
                let ns_name = match file_name_of(&file_path) {
                    Some(file_name) => namespace_name(file_name.as_str()),
                    None => String::new(),
                };
                let text = self.write_file(ns_name.clone(), from_pkgs);
                Output::File { file_path, ns_name, text }
            },
        }
    }

    /// What there is to do with the output; `None` if the output cannot be
    /// generated.
    pub fn try_gen<F: Fn(&Vec<Vec<String>>) -> Vec<PkgNode>>(self, from_pkgs: F) -> (output: Option<
        Output<B>,
    >)
        requires
            forall|keys: &Vec<Vec<String>>| call_requires(from_pkgs, (keys,)),
        ensures
            output is Some <==> gen_ok(self.backend().context()),
            output matches Some(output) ==> generated(self, from_pkgs, output),
    {
        if self.cx().can_gen() {
            Some(self.gen(from_pkgs))
        } else {
            None
        }
    }
}

} // verus!
