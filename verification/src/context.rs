//! What generation knows of the program as a whole: its definitions, the names
//! and adjustments that have been settled for them, and where the output goes.
use crate::rir::{
    DefId, Item, ItemView, MessageView, Method, MethodView, ServiceView, Ty, TyView, methods_view,
};
use crate::text::{Text, texts};
use std::path::PathBuf;
use vstd::prelude::*;

verus! {

/// `std::path::PathBuf`. Paths are carried through; only the name of the file that
/// one leads to is asked for.
#[verifier::external_type_specification]
#[verifier::external_body]
pub struct ExPathBuf(std::path::PathBuf);

/// What `std::path::Path::file_name` gives for a path, where that is text.
pub uninterp spec fn path_file_name(path: PathBuf) -> Option<Seq<char>>;

/// Calls `std::path::Path::file_name` and takes the name as text: the last
/// component of the path comes out, if the path has one that names a file and it
/// is valid Unicode. How a path falls into components is left to the path.
#[verifier::external_body]
pub(crate) fn file_name_of(path: &PathBuf) -> (name: Option<String>)
    ensures
        match name {
            Some(name) => path_file_name(*path) == Some(name@),
            None => path_file_name(*path) is None,
        },
{
    path.file_name()?.to_str().map(String::from)
}

/// How one definition is to be changed on its way into Rust.
#[derive(Debug)]
pub struct Adjust {
    /// Put the value behind a `Box`.
    pub boxed: bool,
    /// Attributes to stand in front of the definition.
    pub attrs: Vec<String>,
    /// Whole items to stand in front of the definition.
    pub nested_items: Vec<String>,
}

/// View of [`Adjust`].
pub struct AdjustView {
    pub boxed: bool,
    pub attrs: Seq<Text>,
    pub nested_items: Seq<Text>,
}

impl View for Adjust {
    type V = AdjustView;

    open spec fn view(&self) -> AdjustView {
        AdjustView {
            boxed: self.boxed,
            attrs: texts(self.attrs@),
            nested_items: texts(self.nested_items@),
        }
    }
}

impl Adjust {
    /// Whether the value is to be put behind a `Box`.
    pub fn boxed(&self) -> (b: bool)
        ensures
            b == self@.boxed,
    {
        self.boxed
    }

    /// The attributes to stand in front of the definition.
    pub fn attrs(&self) -> (attrs: &Vec<String>)
        ensures
            texts(attrs@) == self@.attrs,
    {
        &self.attrs
    }
}

/// The two forms in which an enum can be generated.
#[derive(Clone, Copy, Debug, PartialEq, Eq, Structural)]
pub enum EnumMode {
    Enum,
    NewType,
}

/// The tags of a definition.
#[derive(Clone, Copy, Debug, PartialEq, Eq, Structural)]
pub struct Tags {
    pub enum_mode: Option<EnumMode>,
}

/// All that is known of one definition.
#[derive(Debug)]
pub struct Node {
    /// The name that the definition has in Rust.
    pub rust_name: String,
    /// The definition, if it is an item; fields and variants are none.
    pub item: Option<Item>,
    pub adjust: Option<Adjust>,
    pub tags: Option<Tags>,
    /// The type of the definition as Rust source.
    pub ty_code: String,
    /// The path of the definition from the root of the output.
    pub item_path: Vec<String>,
    /// The path of the module that holds the definition.
    pub mod_path: Vec<String>,
    /// For a service: its methods, those that it inherits included.
    pub service_methods: Vec<Method>,
}

/// View of [`Node`].
#[verifier::ext_equal]
pub struct NodeView {
    pub rust_name: Text,
    pub item: Option<ItemView>,
    pub adjust: Option<AdjustView>,
    pub tags: Option<Tags>,
    pub ty_code: Text,
    pub item_path: Seq<Text>,
    pub mod_path: Seq<Text>,
    pub service_methods: Seq<MethodView>,
}

impl View for Node {
    type V = NodeView;

    open spec fn view(&self) -> NodeView {
        NodeView {
            rust_name: self.rust_name@,
            item: match self.item {
                Some(item) => Some(item@),
                None => None,
            },
            adjust: match self.adjust {
                Some(adjust) => Some(adjust@),
                None => None,
            },
            tags: self.tags,
            ty_code: self.ty_code@,
            item_path: texts(self.item_path@),
            mod_path: texts(self.mod_path@),
            service_methods: methods_view(self.service_methods@),
        }
    }
}

/// One row of the table of constants: the source that defines the literal
/// `lit` as a constant called `name` of type `ty`.
#[derive(Debug)]
pub struct LitDef {
    pub name: String,
    pub lit: String,
    pub ty: String,
    pub def: String,
}

/// View of [`LitDef`].
pub struct LitDefView {
    pub name: Text,
    pub lit: Text,
    pub ty: Text,
    pub def: Text,
}

impl View for LitDef {
    type V = LitDefView;

    open spec fn view(&self) -> LitDefView {
        LitDefView { name: self.name@, lit: self.lit@, ty: self.ty@, def: self.def@ }
    }
}

/// Where a workspace is to be written.
#[derive(Debug)]
pub struct WorkspaceInfo {
    pub dir: PathBuf,
}

/// The form of the output.
#[derive(Debug)]
pub enum Mode {
    /// One crate for each root module, under one directory.
    Workspace(WorkspaceInfo),
    /// All in one file.
    SingleFile { file_path: PathBuf },
}

/// What generation knows of the program.
#[derive(Debug)]
pub struct Context {
    /// The definitions; a [`DefId`] is an index into them.
    pub nodes: Vec<Node>,
    pub lit_defs: Vec<LitDef>,
    pub mode: Mode,
    /// The definitions to generate code for.
    pub codegen_items: Vec<DefId>,
    /// Text to stand at the head of the output.
    pub doc_header: String,
}

/// View of [`Context`].
#[verifier::ext_equal]
pub struct ContextView {
    pub nodes: Seq<NodeView>,
    pub lit_defs: Seq<LitDefView>,
    pub mode: Mode,
    pub codegen_items: Seq<DefId>,
    pub doc_header: Text,
}

impl View for Context {
    type V = ContextView;

    open spec fn view(&self) -> ContextView {
        ContextView {
            nodes: Seq::new(self.nodes@.len(), |i: int| self.nodes@[i]@),
            lit_defs: Seq::new(self.lit_defs@.len(), |i: int| self.lit_defs@[i]@),
            mode: self.mode,
            codegen_items: self.codegen_items@,
            doc_header: self.doc_header@,
        }
    }
}

/// Whether row `i` of a table of constants is for this name, literal and type.
pub open spec fn lit_row(
    rows: Seq<LitDefView>,
    i: int,
    name: Text,
    lit: Text,
    ty: Text,
) -> bool {
    &&& rows[i].name == name
    &&& rows[i].lit == lit
    &&& rows[i].ty == ty
}

/// Whether row `i` is the first of the table for this name, literal and type.
pub open spec fn first_lit_row(
    rows: Seq<LitDefView>,
    i: int,
    name: Text,
    lit: Text,
    ty: Text,
) -> bool {
    &&& 0 <= i < rows.len()
    &&& lit_row(rows, i, name, lit, ty)
    &&& forall|j: int| 0 <= j < i ==> !lit_row(rows, j, name, lit, ty)
}

/// What the table says of this name, literal and type; `None` if it has no row
/// for them.
pub open spec fn find_lit(
    rows: Seq<LitDefView>,
    name: Text,
    lit: Text,
    ty: Text,
) -> Option<Text> {
    if exists|i: int| first_lit_row(rows, i, name, lit, ty) {
        Some(rows[choose|i: int| first_lit_row(rows, i, name, lit, ty)].def)
    } else {
        None
    }
}

impl ContextView {
    /// Whether there is a definition of this number.
    pub open spec fn knows(self, did: DefId) -> bool {
        did < self.nodes.len()
    }

    /// The item of this number, if there is one.
    pub open spec fn item(self, did: DefId) -> Option<ItemView> {
        if self.knows(did) {
            self.nodes[did as int].item
        } else {
            None
        }
    }

    /// How the definition is to be adjusted, if it is.
    pub open spec fn adjust(self, did: DefId) -> Option<AdjustView> {
        if self.knows(did) {
            self.nodes[did as int].adjust
        } else {
            None
        }
    }

    /// The tags of the definition, if it has any.
    pub open spec fn node_tags(self, did: DefId) -> Option<Tags> {
        if self.knows(did) {
            self.nodes[did as int].tags
        } else {
            None
        }
    }

    /// The name of a known definition in Rust.
    pub open spec fn rust_name(self, did: DefId) -> Text {
        self.nodes[did as int].rust_name
    }

    /// Whether an adjustment puts the definition behind a `Box`.
    pub open spec fn boxed(self, did: DefId) -> bool {
        self.adjust(did) matches Some(adjust) && adjust.boxed
    }

    /// The attributes that an adjustment gives the definition.
    pub open spec fn attrs(self, did: DefId) -> Seq<Text> {
        match self.adjust(did) {
            Some(adjust) => adjust.attrs,
            None => Seq::empty(),
        }
    }

    /// The items that an adjustment puts in front of the definition.
    pub open spec fn nested_items(self, did: DefId) -> Seq<Text> {
        match self.adjust(did) {
            Some(adjust) => adjust.nested_items,
            None => Seq::empty(),
        }
    }

    /// The source that defines the literal as a constant of that name and type;
    /// `None` if the literal cannot be one.
    pub open spec fn def_lit(self, name: Text, lit: Text, ty: Text) -> Option<Text> {
        find_lit(self.lit_defs, name, lit, ty)
    }

    /// The module that the definition is written to. In a workspace the first
    /// component of its path is the crate, and is left out.
    pub open spec fn mod_key(self, did: DefId) -> Seq<Text> {
        let path = self.nodes[did as int].mod_path;
        match self.mode {
            Mode::Workspace(_) => path.drop_first(),
            Mode::SingleFile { .. } => path,
        }
    }

    /// Whether the definition has a module to be written to: in a workspace its
    /// path must name a crate.
    pub open spec fn has_mod_key(self, did: DefId) -> bool {
        &&& self.knows(did)
        &&& self.mode is Workspace ==> self.nodes[did as int].mod_path.len() > 0
    }

    /// The same context with another item of that number.
    pub open spec fn with_item(self, did: DefId, item: ItemView) -> ContextView {
        ContextView {
            nodes: self.nodes.update(
                did as int,
                NodeView { item: Some(item), ..self.nodes[did as int] },
            ),
            ..self
        }
    }
}

impl MessageView {
    /// The same message with the stack mark of field `i` set to `b`.
    pub open spec fn with_field_mark(self, i: int, b: bool) -> MessageView {
        MessageView {
            fields: self.fields.update(
                i,
                crate::rir::FieldView { ty: self.fields[i].ty.with_mark(b), ..self.fields[i] },
            ),
            ..self
        }
    }
}

impl TyView {
    /// The same type with its stack mark set to `b`.
    pub open spec fn with_mark(self, b: bool) -> TyView {
        TyView { in_stack: Some(b), ..self }
    }
}

impl ServiceView {
    /// The same service with the stack mark of argument `a` of method `i` set to `b`.
    pub open spec fn with_arg_mark(self, i: int, a: int, b: bool) -> ServiceView {
        let method = self.methods[i];
        ServiceView {
            methods: self.methods.update(
                i,
                MethodView { args: method.args.update(a, method.args[a].with_mark(b)), ..method },
            ),
        }
    }

    /// The same service with the stack mark of what method `i` returns set to `b`.
    pub open spec fn with_ret_mark(self, i: int, b: bool) -> ServiceView {
        let method = self.methods[i];
        ServiceView {
            methods: self.methods.update(i, MethodView { ret: method.ret.with_mark(b), ..method }),
        }
    }
}

impl Context {
    /// The item of this number, if there is one.
    pub fn item(&self, did: DefId) -> (item: Option<&Item>)
        ensures
            match item {
                Some(item) => self@.item(did) == Some(item@),
                None => self@.item(did) is None,
            },
            item matches Some(item) ==> did < self.nodes@.len() && self.nodes@[did as int].item
                == Some(*item),
    {
        if (did as usize) < self.nodes.len() {
            assert(self@.nodes[did as int] == self.nodes@[did as int]@);
            self.nodes[did as usize].item.as_ref()
        } else {
            None
        }
    }

    /// How the definition is to be adjusted, if it is.
    pub fn adjust(&self, did: DefId) -> (adjust: Option<&Adjust>)
        ensures
            match adjust {
                Some(adjust) => self@.adjust(did) == Some(adjust@),
                None => self@.adjust(did) is None,
            },
    {
        if (did as usize) < self.nodes.len() {
            assert(self@.nodes[did as int] == self.nodes@[did as int]@);
            self.nodes[did as usize].adjust.as_ref()
        } else {
            None
        }
    }

    /// The tags of the definition, if it has any.
    pub fn node_tags(&self, did: DefId) -> (tags: Option<Tags>)
        ensures
            tags == self@.node_tags(did),
    {
        if (did as usize) < self.nodes.len() {
            assert(self@.nodes[did as int] == self.nodes@[did as int]@);
            self.nodes[did as usize].tags
        } else {
            None
        }
    }

    /// The name of the definition in Rust.
    pub fn rust_name(&self, did: DefId) -> (name: &String)
        requires
            self@.knows(did),
        ensures
            name@ == self@.rust_name(did),
    {
        assert(self@.nodes[did as int] == self.nodes@[did as int]@);
        &self.nodes[did as usize].rust_name
    }

    /// The type as Rust source.
    pub fn codegen_item_ty<'a>(&self, ty: &'a Ty) -> (code: &'a String)
        ensures
            code@ == ty@.code,
    {
        &ty.code
    }

    /// The type of the definition as Rust source.
    pub fn codegen_ty(&self, did: DefId) -> (code: &String)
        requires
            self@.knows(did),
        ensures
            code@ == self@.nodes[did as int].ty_code,
    {
        assert(self@.nodes[did as int] == self.nodes@[did as int]@);
        &self.nodes[did as usize].ty_code
    }

    /// The path of the definition from the root of the output.
    pub fn item_path(&self, did: DefId) -> (path: &Vec<String>)
        requires
            self@.knows(did),
        ensures
            texts(path@) == self@.nodes[did as int].item_path,
    {
        assert(self@.nodes[did as int] == self.nodes@[did as int]@);
        &self.nodes[did as usize].item_path
    }

    /// The path of the module that holds the definition.
    pub fn mod_path(&self, did: DefId) -> (path: &Vec<String>)
        requires
            self@.knows(did),
        ensures
            texts(path@) == self@.nodes[did as int].mod_path,
    {
        assert(self@.nodes[did as int] == self.nodes@[did as int]@);
        &self.nodes[did as usize].mod_path
    }

    /// The methods of the service of this number, those that it inherits included.
    pub fn service_methods(&self, did: DefId) -> (methods: &Vec<Method>)
        requires
            self@.knows(did),
        ensures
            methods_view(methods@) == self@.nodes[did as int].service_methods,
    {
        assert(self@.nodes[did as int] == self.nodes@[did as int]@);
        &self.nodes[did as usize].service_methods
    }

    /// The source that defines `lit` as a constant called `name` of type `ty`;
    /// `None` if the literal cannot be one.
    pub fn def_lit(&self, name: &String, lit: &String, ty: &String) -> (def: Option<&String>)
        ensures
            match def {
                Some(def) => self@.def_lit(name@, lit@, ty@) == Some(def@),
                None => self@.def_lit(name@, lit@, ty@) is None,
            },
    {
        let mut i: usize = 0;
        while i < self.lit_defs.len()
            invariant
                i <= self.lit_defs@.len(),
                forall|j: int| 0 <= j < i ==> !lit_row(self@.lit_defs, j, name@, lit@, ty@),
            decreases self.lit_defs@.len() - i,
        {
            let row = &self.lit_defs[i];
            assert(self@.lit_defs[i as int] == row@);
            if row.name == *name && row.lit == *lit && row.ty == *ty {
                proof {
                    assert(first_lit_row(self@.lit_defs, i as int, name@, lit@, ty@));
                    let k = choose|k: int| first_lit_row(self@.lit_defs, k, name@, lit@, ty@);
                    assert(k == i) by {
                        assert(lit_row(self@.lit_defs, k, name@, lit@, ty@));
                        assert(lit_row(self@.lit_defs, i as int, name@, lit@, ty@));
                    }
                }
                return Some(&row.def);
            }
            i += 1;
        }
        None
    }

    /// The module that the definition is written to.
    pub fn mod_key(&self, did: DefId) -> (key: Vec<String>)
        requires
            self@.has_mod_key(did),
        ensures
            texts(key@) == self@.mod_key(did),
            match self.mode {
                Mode::Workspace(_) => seq![self.nodes@[did as int].mod_path@[0]@] + texts(key@)
                    == texts(self.nodes@[did as int].mod_path@),
                Mode::SingleFile { .. } => texts(key@) == texts(
                    self.nodes@[did as int].mod_path@,
                ),
            },
    {
        let path = self.mod_path(did);
        let start: usize = match &self.mode {
            Mode::Workspace(_) => 1,
            Mode::SingleFile { .. } => 0,
        };
        let mut key: Vec<String> = Vec::new();
        let mut i: usize = start;
        assert(self@.nodes[did as int].mod_path.len() == path@.len());
        while i < path.len()
            invariant
                start <= i <= path@.len(),
                texts(key@) == texts(path@).subrange(start as int, i as int),
            decreases path@.len() - i,
        {
            let ghost before = key@;
            key.push(path[i].clone());
            i += 1;
            assert(texts(key@) =~= texts(before).push(texts(path@)[i - 1]));
            assert(texts(key@) =~= texts(path@).subrange(start as int, i as int));
        }
        assert(texts(key@) =~= self@.mod_key(did));
        assert(self@.nodes[did as int] == self.nodes@[did as int]@);
        proof {
            let whole = texts(self.nodes@[did as int].mod_path@);
            if self.mode is Workspace {
                assert(seq![whole[0]] + texts(key@) =~= whole);
            } else {
                assert(texts(key@) =~= whole);
            }
        }
        key
    }

    /// Sets the stack mark of a field.
    pub(crate) fn set_field_mark(&mut self, did: DefId, i: usize, b: bool)
        requires
            old(self)@.item(did) matches Some(ItemView::Message(m)) && i < m.fields.len(),
        ensures
            final(self)@ == old(self)@.with_item(
                did,
                ItemView::Message(old(self)@.item(did)->0->Message_0.with_field_mark(i as int, b)),
            ),
    {
        let ghost before = *self;
        assert(self@.nodes[did as int] == self.nodes@[did as int]@);
        match &mut self.nodes[did as usize].item {
            Some(Item::Message(m)) => {
                m.fields[i].ty.in_stack = Some(b);
            },
            _ => {},
        }
        let ghost after = ItemView::Message(
            before@.item(did)->0->Message_0.with_field_mark(i as int, b),
        );
        assert(self.nodes@[did as int].item->0@ =~= after) by {
            assert(self.nodes@[did as int].item->0->Message_0@.fields
                =~= before@.item(did)->0->Message_0.with_field_mark(i as int, b).fields);
        }
        assert(self@.nodes =~= before@.with_item(did, after).nodes);
    }

    /// Records whether all of a message lies on the stack.
    pub(crate) fn set_all_in_stack(&mut self, did: DefId, b: bool)
        requires
            old(self)@.item(did) matches Some(ItemView::Message(_)),
        ensures
            final(self)@ == old(self)@.with_item(
                did,
                ItemView::Message(
                    MessageView {
                        all_in_stack: Some(b),
                        ..old(self)@.item(did)->0->Message_0
                    },
                ),
            ),
    {
        let ghost before = *self;
        assert(self@.nodes[did as int] == self.nodes@[did as int]@);
        match &mut self.nodes[did as usize].item {
            Some(Item::Message(m)) => {
                m.all_in_stack = Some(b);
            },
            _ => {},
        }
        let ghost after = ItemView::Message(
            MessageView { all_in_stack: Some(b), ..before@.item(did)->0->Message_0 },
        );
        assert(self.nodes@[did as int].item->0@ =~= after);
        assert(self@.nodes =~= before@.with_item(did, after).nodes);
    }

    /// Sets the stack mark of an argument.
    pub(crate) fn set_arg_mark(&mut self, did: DefId, i: usize, a: usize, b: bool)
        requires
            old(self)@.item(did) matches Some(ItemView::Service(s)) && i < s.methods.len() && a
                < s.methods[i as int].args.len(),
        ensures
            final(self)@ == old(self)@.with_item(
                did,
                ItemView::Service(
                    old(self)@.item(did)->0->Service_0.with_arg_mark(i as int, a as int, b),
                ),
            ),
    {
        let ghost before = *self;
        assert(self@.nodes[did as int] == self.nodes@[did as int]@);
        match &mut self.nodes[did as usize].item {
            Some(Item::Service(s)) => {
                s.methods[i].args[a].ty.in_stack = Some(b);
            },
            _ => {},
        }
        let ghost target = before@.item(did)->0->Service_0.with_arg_mark(i as int, a as int, b);
        let ghost after = ItemView::Service(target);
        assert(self.nodes@[did as int].item->0@ =~= after) by {
            let now = self.nodes@[did as int].item->0->Service_0@;
            assert(now.methods[i as int].args =~= target.methods[i as int].args);
            assert(now.methods =~= target.methods);
        }
        assert(self@.nodes =~= before@.with_item(did, after).nodes);
    }

    /// Sets the stack mark of what a method returns.
    pub(crate) fn set_ret_mark(&mut self, did: DefId, i: usize, b: bool)
        requires
            old(self)@.item(did) matches Some(ItemView::Service(s)) && i < s.methods.len(),
        ensures
            final(self)@ == old(self)@.with_item(
                did,
                ItemView::Service(
                    old(self)@.item(did)->0->Service_0.with_ret_mark(i as int, b),
                ),
            ),
    {
        let ghost before = *self;
        assert(self@.nodes[did as int] == self.nodes@[did as int]@);
        match &mut self.nodes[did as usize].item {
            Some(Item::Service(s)) => {
                s.methods[i].ret.in_stack = Some(b);
            },
            _ => {},
        }
        let ghost target = before@.item(did)->0->Service_0.with_ret_mark(i as int, b);
        let ghost after = ItemView::Service(target);
        assert(self.nodes@[did as int].item->0@ =~= after) by {
            let now = self.nodes@[did as int].item->0->Service_0@;
            assert(now.methods =~= target.methods);
        }
        assert(self@.nodes =~= before@.with_item(did, after).nodes);
    }
}

} // verus!
