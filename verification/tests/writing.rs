use rir_codegen::backend::CodegenBackend;
use rir_codegen::codegen::{Codegen, CodegenItem, CodegenKind};
use rir_codegen::context::{
    Adjust, Context, ContextView, EnumMode, LitDef, Mode, Node, Tags, WorkspaceInfo,
};
use rir_codegen::modules::{Output, namespace_name};
use rir_codegen::pkgs::{PkgNode, Pkgs, put_together, write_stream};
use rir_codegen::rir::{
    Const, DefId, Enum, EnumRepr, EnumVariant, Field, FieldKind, Item, Message, Method, Mod,
    NewType, Service, Ty, TyKind,
};
use std::collections::HashMap;
use std::path::PathBuf;

/// A backend that adds a note of each call. A method has no source if its name
/// starts with an underscore.
struct Notes {
    cx: Context,
    /// Put in front of each note.
    tag: &'static str,
}

impl Notes {
    fn note(&self, cur_item: Option<DefId>, kind: &str, def_id: DefId) -> String {
        match cur_item {
            Some(cur_item) => format!("<{}{kind} {def_id} in {cur_item}>", self.tag),
            None => format!("<{}{kind} {def_id}>", self.tag),
        }
    }
}

impl CodegenBackend for Notes {
    type Rest = &'static str;

    fn rest(&self) -> &'static str {
        unreachable!()
    }

    fn context(&self) -> ContextView {
        unreachable!()
    }

    fn cx(&self) -> &Context {
        &self.cx
    }

    fn cx_mut(&mut self) -> &mut Context {
        &mut self.cx
    }

    fn codegen_struct_impl(
        &self,
        cur_item: Option<DefId>,
        def_id: DefId,
        stream: &mut String,
        _s: &Message,
    ) {
        stream.push_str(&self.note(cur_item, "struct", def_id));
    }

    fn codegen_enum_impl(
        &self,
        cur_item: Option<DefId>,
        def_id: DefId,
        stream: &mut String,
        _e: &Enum,
    ) {
        stream.push_str(&self.note(cur_item, "enum", def_id));
    }

    fn codegen_service_impl(
        &self,
        cur_item: Option<DefId>,
        def_id: DefId,
        stream: &mut String,
        _s: &Service,
    ) {
        stream.push_str(&self.note(cur_item, "service", def_id));
    }

    fn codegen_service_method(
        &self,
        cur_item: Option<DefId>,
        service: DefId,
        m: &Method,
    ) -> String {
        assert!(cur_item.is_none() || cur_item == Some(service));
        if m.name.starts_with('_') {
            String::new()
        } else {
            format!("fn {}();", m.name)
        }
    }

    fn codegen_newtype_impl(
        &self,
        cur_item: Option<DefId>,
        def_id: DefId,
        stream: &mut String,
        _t: &NewType,
    ) {
        stream.push_str(&self.note(cur_item, "newtype", def_id));
    }
}

fn strings(parts: &[&str]) -> Vec<String> {
    parts.iter().map(|s| s.to_string()).collect()
}

fn node(name: &str, item: Option<Item>) -> Node {
    Node {
        rust_name: name.to_string(),
        item,
        adjust: None,
        tags: Some(Tags { enum_mode: None }),
        ty_code: String::from("u8"),
        item_path: strings(&["krate", "a", name]),
        mod_path: strings(&["krate", "a"]),
        service_methods: Vec::new(),
    }
}

fn context(nodes: Vec<Node>) -> Context {
    Context {
        nodes,
        lit_defs: Vec::new(),
        mode: Mode::SingleFile { file_path: PathBuf::from("out.d/idl.gen.rs") },
        codegen_items: Vec::new(),
        doc_header: String::from("// head"),
    }
}

fn codegen(nodes: Vec<Node>) -> Codegen<Notes> {
    Codegen::new(Notes { cx: context(nodes), tag: "" })
}

fn ty(code: &str) -> Ty {
    Ty { kind: TyKind::Builtin, code: code.to_string(), in_stack: Some(true) }
}

fn adjust(boxed: bool, attrs: &[&str], nested_items: &[&str]) -> Option<Adjust> {
    Some(Adjust { boxed, attrs: strings(attrs), nested_items: strings(nested_items) })
}

fn empty_message() -> Item {
    Item::Message(Message { fields: Vec::new(), all_in_stack: None })
}

/// What is written for an empty struct that is written as an item.
fn empty_struct_code(name: &str, did: DefId, repr: &str) -> String {
    format!(
        r#"{repr}
            #[derive(Clone, PartialEq)]
            pub struct {name} {{
                
            }}<struct {did} in {did}>"#
    )
}

fn write_item(cg: &Codegen<Notes>, item: CodegenItem) -> String {
    assert!(cg.can_write(item));
    let mut stream = String::from(">");
    cg.write_item(&mut stream, item);
    stream
}

#[test]
fn the_backend_is_reached_through_the_generator() {
    let cg = codegen(vec![node("A", Some(empty_message()))]);
    assert_eq!(cg.rust_name(0), "A");
    assert!(cg.item(0).is_some());
    assert!(cg.item(1).is_none());
}

#[test]
fn items_are_direct_by_default() {
    let item = CodegenItem::from(7);
    assert_eq!(item.def_id, 7);
    assert_eq!(item.kind, CodegenKind::Direct);
}

#[test]
fn a_struct_shows_its_fields_in_order() {
    let field = |did, kind, code| Field { did, kind, ty: ty(code) };
    let s = Message {
        fields: vec![
            field(1, FieldKind::Required, "i32"),
            field(2, FieldKind::Optional, "i64"),
            field(3, FieldKind::Required, "Foo"),
            field(4, FieldKind::Optional, "Bar"),
        ],
        all_in_stack: Some(true),
    };
    let mut nodes = vec![node("S", None), node("a", None), node("b", None), node("c", None), node("d", None)];
    nodes[2].adjust = adjust(false, &["#[x]", "#[y]"], &[]);
    nodes[3].adjust = adjust(true, &[], &[]);
    nodes[4].adjust = adjust(true, &["#[z]"], &[]);
    let cg = codegen(nodes);
    assert!(cg.can_write_struct(0, &s));
    let mut stream = String::from(">");
    cg.write_struct(0, &mut stream, &s);
    assert_eq!(
        stream,
        r#">#[repr(C)]
            #[derive(Clone, PartialEq)]
            pub struct S {
                
                        pub a: i32,
#[x]#[y]
                        pub b: ::std::option::Option<i64>,

                        pub c: ::std::boxed::Box<Foo>,
#[z]
                        pub d: ::std::option::Option<::std::boxed::Box<Bar>>,
            }<struct 0>"#
    );
}

#[test]
fn only_a_struct_known_to_lie_on_the_stack_is_repr_c() {
    let cg = codegen(vec![node("S", None)]);
    for (mark, repr) in [(None, ""), (Some(false), ""), (Some(true), "#[repr(C)]")] {
        let mut stream = String::new();
        cg.write_struct(0, &mut stream, &Message { fields: Vec::new(), all_in_stack: mark });
        assert_eq!(stream, empty_struct_code("S", 0, repr).replace(" in 0", ""));
    }
}

fn colours(repr: Option<EnumRepr>) -> Enum {
    Enum {
        variants: vec![
            EnumVariant { did: 1, discr: repr.map(|_| -3), fields: Vec::new() },
            EnumVariant { did: 2, discr: repr.map(|_| 0x1_0000_0005), fields: Vec::new() },
        ],
        repr,
    }
}

#[test]
fn an_enum_tagged_as_new_type_is_a_struct_around_an_integer() {
    let mut nodes = vec![node("Colour", None), node("RED", None), node("BLUE", None)];
    nodes[0].tags = Some(Tags { enum_mode: Some(EnumMode::NewType) });
    let cg = codegen(nodes);
    let e = colours(Some(EnumRepr::I32));
    assert!(cg.can_write_enum(0, &e));
    let expected = r#">#[derive(Clone, PartialEq, Copy)]
            #[repr(transparent)]
            pub struct Colour(i32);

            impl Colour {
                pub const RED: Self = Self(-3);pub const BLUE: Self = Self(5);

                pub fn inner(&self) -> i32 {
                    self.0
                }
            }

            impl ::std::convert::From<i32> for Colour {
                fn from(value: i32) -> Self {
                    Self(value)
                }
            }<enum 0>"#;
    let mut stream = String::from(">");
    cg.write_enum(0, &mut stream, &e);
    assert_eq!(stream, expected);
    let mut stream = String::from(">");
    cg.write_enum_as_new_type(0, &mut stream, &e);
    assert_eq!(stream, expected);
}

#[test]
fn an_enum_with_a_repr_shows_its_discriminants() {
    let mut nodes = vec![node("Colour", None), node("Red", None), node("Blue", None)];
    nodes[0].tags = Some(Tags { enum_mode: Some(EnumMode::Enum) });
    nodes[2].adjust = adjust(false, &["#[x]", "#[y]"], &[]);
    let cg = codegen(nodes);
    let mut stream = String::from(">");
    cg.write_enum(0, &mut stream, &colours(Some(EnumRepr::I32)));
    assert_eq!(
        stream,
        r#">
            #[derive(Clone, PartialEq)]
            # [repr (i32)] # [derive (Copy)]
            pub enum Colour {
                
                        Red  =-3,
#[x]
#[y]
                        Blue  =5,
            }
            <enum 0>"#
    );
}

#[test]
fn an_enum_without_a_repr_shows_what_its_variants_hold() {
    let cg = codegen(vec![node("E", None), node("A", None), node("B", None), node("C", None)]);
    let variant = |did, codes: &[&str]| EnumVariant {
        did,
        discr: None,
        fields: codes.iter().map(|code| ty(code)).collect(),
    };
    let e = Enum {
        variants: vec![variant(1, &[]), variant(2, &["u8"]), variant(3, &["u8", "Foo"])],
        repr: None,
    };
    let mut stream = String::from(">");
    cg.write_enum(0, &mut stream, &e);
    assert_eq!(
        stream,
        r#">
            #[derive(Clone, PartialEq)]
            
            pub enum E {
                
                        A  ,

                        B (u8) ,

                        C (u8,Foo) ,
            }
            <enum 0>"#
    );
}

#[test]
fn an_empty_enum_has_no_repr_but_can_be_copied() {
    let cg = codegen(vec![node("E", None)]);
    for (repr, attrs) in [(None, ""), (Some(EnumRepr::I32), "# [derive (Copy)]")] {
        let mut stream = String::new();
        cg.write_enum(0, &mut stream, &Enum { variants: Vec::new(), repr });
        assert_eq!(
            stream,
            format!(
                r#"
            #[derive(Clone, PartialEq)]
            {attrs}
            pub enum E {{
                
            }}
            <enum 0>"#
            )
        );
    }
}

#[test]
fn the_attributes_of_an_enum_are_spelt_as_tokens_are() {
    let spelt = |source: &str| source.parse::<proc_macro2::TokenStream>().unwrap().to_string();
    let cg = codegen(vec![node("E", None), node("A", None), node("B", None)]);
    let mut stream = String::new();
    cg.write_enum(0, &mut stream, &colours(Some(EnumRepr::I32)));
    assert_eq!(
        stream.lines().nth(2).unwrap().trim(),
        spelt("#[repr(i32)] #[derive(Copy)]")
    );
    let mut stream = String::new();
    cg.write_enum(0, &mut stream, &Enum { variants: Vec::new(), repr: Some(EnumRepr::I32) });
    assert_eq!(stream.lines().nth(2).unwrap().trim(), spelt("#[derive(Copy)]"));
}

fn method(name: &str) -> Method {
    Method { name: name.to_string(), args: Vec::new(), ret: ty("()") }
}

#[test]
fn a_service_is_a_trait_of_its_methods() {
    let mut nodes = vec![node("Svc", None)];
    nodes[0].service_methods = vec![method("a"), method("_b"), method("c")];
    let cg = codegen(nodes);
    let mut stream = String::from(">");
    cg.write_service(0, &mut stream, &Service { methods: Vec::new() });
    assert_eq!(
        stream,
        r#">
            pub trait Svc {
                fn a();
fn c();
            }
            <service 0>"#
    );
}

#[test]
fn a_service_without_sources_is_no_trait() {
    let mut nodes = vec![node("Svc", None)];
    nodes[0].service_methods = vec![method("_a"), method("_b")];
    let cg = codegen(nodes);
    let mut stream = String::from(">");
    cg.write_service(0, &mut stream, &Service { methods: vec![method("a")] });
    assert_eq!(stream, "><service 0>");
}

#[test]
fn a_new_type_has_ways_in_and_out() {
    let cg = codegen(vec![node("Id", None)]);
    let mut stream = String::from(">");
    cg.write_new_type(0, &mut stream, &NewType { ty: ty("i64") });
    assert_eq!(
        stream,
        r#">
            #[derive(Clone, PartialEq)]
            pub struct Id(pub i64);

            impl ::std::ops::Deref for Id {
                type Target = i64;

                fn deref(&self) -> &Self::Target {
                    &self.0
                }
            }

            impl From<i64> for Id {
                fn from(v: i64) -> Self {
                    Self(v)
                }
            }
            <newtype 0>"#
    );
}

#[test]
fn a_constant_is_its_definition() {
    let mut cx = context(vec![node("MAX", None)]);
    let row = |name: &str, lit: &str, ty: &str, def: &str| LitDef {
        name: name.to_string(),
        lit: lit.to_string(),
        ty: ty.to_string(),
        def: def.to_string(),
    };
    cx.lit_defs = vec![
        row("MAX", "4", "u8", "wrong literal"),
        row("MIN", "3", "u8", "wrong name"),
        row("MAX", "3", "u16", "wrong type"),
        row("MAX", "3", "u8", "pub const MAX: u8 = 3;"),
        row("MAX", "3", "u8", "too late"),
    ];
    let cg = Codegen::new(Notes { cx, tag: "" });
    let mut stream = String::from(">");
    cg.write_const(0, &mut stream, &Const { lit: String::from("3") });
    assert_eq!(stream, ">pub const MAX: u8 = 3;");
}

#[test]
fn what_an_adjustment_adds_stands_in_front_in_order() {
    let mut nodes = vec![node("S", Some(empty_message()))];
    nodes[0].adjust = adjust(false, &["#[x]", "#[a]"], &["impl B;", "impl A;", "impl C;"]);
    let cg = codegen(nodes);
    assert_eq!(
        write_item(&cg, CodegenItem::from(0)),
        format!(
            ">impl A;\nimpl B;\nimpl C;#[x]\n#[a]{}",
            empty_struct_code("S", 0, "")
        )
    );
    // The order in which they are held does not matter.
    let mut nodes = vec![node("S", Some(empty_message()))];
    nodes[0].adjust = adjust(false, &["#[x]", "#[a]"], &["impl C;", "impl B;", "impl A;"]);
    assert_eq!(write_item(&codegen(nodes), CodegenItem::from(0)), write_item(&cg, CodegenItem::from(0)));
}

#[test]
fn a_reference_names_the_path() {
    let mut nodes = vec![node("S", None)];
    nodes[0].adjust = adjust(false, &["#[x]"], &["impl A;"]);
    let cg = codegen(nodes);
    let item = CodegenItem { def_id: 0, kind: CodegenKind::RePub };
    assert_eq!(write_item(&cg, item), ">pub use ::krate::a::S;");
}

#[test]
fn each_kind_of_item_takes_its_form() {
    let mut cx = context(vec![
        node("S", Some(empty_message())),
        node("E", Some(Item::Enum(Enum { variants: Vec::new(), repr: None }))),
        node("Svc", Some(Item::Service(Service { methods: Vec::new() }))),
        node("T", Some(Item::NewType(NewType { ty: ty("u8") }))),
        node("C", Some(Item::Const(Const { lit: String::from("1") }))),
    ]);
    cx.lit_defs.push(LitDef {
        name: String::from("C"),
        lit: String::from("1"),
        ty: String::from("u8"),
        def: String::from("const C"),
    });
    let cg = Codegen::new(Notes { cx, tag: "" });
    let ends = ["<struct 0 in 0>", "<enum 1 in 1>", "<service 2 in 2>", "<newtype 3 in 3>", "const C"];
    for (did, end) in ends.iter().enumerate() {
        let code = write_item(&cg, CodegenItem::from(did as DefId));
        assert!(code.starts_with('>'));
        assert!(code.ends_with(end));
    }
}

#[test]
fn a_module_is_its_items_with_nothing_around_them() {
    let mut nodes = vec![
        node("outer", Some(Item::Mod(Mod { items: vec![1, 2, 3] }))),
        node("A", Some(empty_message())),
        node("inner", Some(Item::Mod(Mod { items: vec![4] }))),
        node("B", Some(empty_message())),
        node("C", Some(empty_message())),
    ];
    nodes[2].adjust = adjust(false, &["#[inner]"], &[]);
    let cg = codegen(nodes);
    let code = |name, did| empty_struct_code(name, did, "");
    assert_eq!(
        write_item(&cg, CodegenItem::from(0)),
        format!(">{}#[inner]{}{}", code("A", 1), code("C", 4), code("B", 3))
    );
}

fn pkg(path: &[&str], children: Vec<PkgNode>) -> PkgNode {
    PkgNode { path: strings(path), ident: path.last().map(|s| s.to_string()), children }
}

fn pkgs(texts: &[(&[&str], &str)]) -> Pkgs {
    let pkgs = Pkgs::default();
    for (path, text) in texts {
        pkgs.insert(strings(path), text.to_string());
    }
    pkgs
}

fn left(pkgs: &Pkgs) -> Vec<Vec<String>> {
    let mut keys: Vec<Vec<String>> = pkgs.iter().map(|kv| kv.key().clone()).collect();
    keys.sort();
    keys
}

#[test]
fn a_tree_is_written_from_the_top() {
    let mut texts = pkgs(&[(&["a"], "1"), (&["a", "b"], "2"), (&["a", "c"], "3"), (&["d"], "4")]);
    let forest = vec![
        pkg(&["a"], vec![pkg(&["a", "c"], vec![]), pkg(&["a", "b"], vec![])]),
        pkg(&["x"], vec![]),
        pkg(&["d"], vec![]),
    ];
    let mut stream = String::from(">");
    write_stream(&mut texts, &mut stream, &forest);
    assert_eq!(stream, ">1324");
    assert!(texts.is_empty());
}

#[test]
fn nothing_is_written_after_a_module_without_a_name() {
    let texts: &[(&[&str], &str)] = &[(&[], "0"), (&["a"], "1"), (&["b"], "2")];
    let mut unread = pkgs(texts);
    let forest = vec![pkg(&[], vec![pkg(&["a"], vec![])]), pkg(&["b"], vec![])];
    let mut stream = String::new();
    write_stream(&mut unread, &mut stream, &forest);
    assert_eq!(stream, "01");
    assert_eq!(left(&unread), [strings(&["b"])]);

    // An empty name is no name.
    let mut unread = pkgs(texts);
    let forest = vec![
        PkgNode { path: strings(&["a"]), ident: Some(String::new()), children: vec![] },
        pkg(&["b"], vec![]),
    ];
    let mut stream = String::new();
    write_stream(&mut unread, &mut stream, &forest);
    assert_eq!(stream, "1");
    assert_eq!(left(&unread), [strings(&[]), strings(&["b"])]);

    // The end of one level is not the end of the level above.
    let mut unread = pkgs(texts);
    let forest = vec![pkg(&["a"], vec![pkg(&[], vec![]), pkg(&["z"], vec![])]), pkg(&["b"], vec![])];
    let mut stream = String::new();
    write_stream(&mut unread, &mut stream, &forest);
    assert_eq!(stream, "102");
}

#[test]
fn a_text_is_written_once() {
    let mut texts = pkgs(&[(&["a"], "1")]);
    let mut stream = String::new();
    write_stream(&mut texts, &mut stream, &vec![pkg(&["a"], vec![pkg(&["a"], vec![])]), pkg(&["a"], vec![])]);
    assert_eq!(stream, "1");
}

/// A forest of roots, in order of their paths.
fn flat(keys: &Vec<Vec<String>>) -> Vec<PkgNode> {
    let mut keys = keys.clone();
    keys.sort();
    keys.into_iter()
        .map(|path| PkgNode { ident: path.last().cloned(), path, children: Vec::new() })
        .collect()
}

fn in_mod(name: &str, path: &[&str]) -> Node {
    Node { mod_path: strings(path), ..node(name, Some(empty_message())) }
}

#[test]
fn items_are_written_module_by_module() {
    let mut cg = codegen(vec![
        in_mod("A", &["k", "b"]),
        in_mod("B", &["k", "a"]),
        in_mod("C", &["k", "b"]),
        in_mod("D", &["k", "c"]),
    ]);
    let items = vec![
        CodegenItem::from(0),
        CodegenItem { def_id: 3, kind: CodegenKind::RePub },
        CodegenItem::from(1),
        CodegenItem::from(2),
    ];
    assert!(cg.can_write_items(&items));
    let mut stream = String::from(">");
    cg.write_items(&mut stream, items, flat);
    let code = |name, did| empty_struct_code(name, did, "#[repr(C)]");
    assert_eq!(
        stream,
        format!(">{}{}{}pub use ::krate::a::D;", code("B", 1), code("A", 0), code("C", 2))
    );
    // What was referred to was not checked.
    assert!(matches!(cg.item(3), Some(Item::Message(m)) if m.all_in_stack.is_none()));
    assert!(matches!(cg.item(0), Some(Item::Message(m)) if m.all_in_stack == Some(true)));
}

#[test]
fn in_a_workspace_the_crate_is_no_part_of_the_module() {
    let mut cx = context(vec![in_mod("A", &["k", "m"]), in_mod("B", &["l", "m"]), in_mod("C", &["k"])]);
    assert_eq!(cx.mod_key(0), ["k", "m"]);
    cx.mode = Mode::Workspace(WorkspaceInfo { dir: PathBuf::from("out") });
    assert_eq!(cx.mod_key(0), ["m"]);
    assert_eq!(cx.mod_key(1), ["m"]);
    assert_eq!(cx.mod_key(2), Vec::<String>::new());
    let mut cg = Codegen::new(Notes { cx, tag: "" });
    let items: Vec<CodegenItem> = [1, 2, 0].into_iter().map(CodegenItem::from).collect();
    assert!(cg.can_write_items(&items));
    let mut stream = String::new();
    let keys_first = |keys: &Vec<Vec<String>>| {
        let mut nodes = flat(keys);
        nodes.reverse();
        nodes
    };
    cg.write_items(&mut stream, items, keys_first);
    let code = |name, did| empty_struct_code(name, did, "#[repr(C)]");
    assert_eq!(stream, format!("{}{}{}", code("B", 1), code("A", 0), code("C", 2)));
}

#[test]
fn checks_come_before_writing_in_a_module() {
    // 0 holds 1, and 1 is found off the stack when it is checked after 0.
    let holder = Message {
        fields: vec![Field {
            did: 2,
            kind: FieldKind::Required,
            ty: Ty {
                kind: TyKind::Path(rir_codegen::rir::Path { did: 1 }),
                code: String::from("B"),
                in_stack: None,
            },
        }],
        all_in_stack: None,
    };
    let held = Message {
        fields: vec![Field { did: 2, kind: FieldKind::Optional, ty: ty("u8") }],
        all_in_stack: None,
    };
    let mut cg = codegen(vec![
        node("A", Some(Item::Message(holder))),
        node("B", Some(Item::Message(held))),
        node("f", None),
    ]);
    let items: Vec<CodegenItem> = [0, 1].into_iter().map(CodegenItem::from).collect();
    assert!(items.iter().all(|item| cg.can_emit(*item)));
    let code = cg.write_mod(&items);
    assert!(code.starts_with("#[repr(C)]\n            #[derive(Clone, PartialEq)]\n            pub struct A"));
    assert_eq!(code.matches("#[repr(C)]").count(), 1);
    // Written again, the mark that A's field got counts.
    let code = cg.write_mod(&items);
    assert_eq!(code.matches("#[repr(C)]").count(), 0);
}

#[test]
fn a_check_through_the_generator_marks_the_context() {
    let mut cg = codegen(vec![node("A", Some(empty_message()))]);
    let mut record = HashMap::new();
    assert!(cg.check_scalar_ty(0, &mut record));
    assert_eq!(record, HashMap::from([(0, true)]));
    assert_eq!(write_item(&cg, CodegenItem::from(0)), format!(">{}", empty_struct_code("A", 0, "#[repr(C)]")));
}

#[test]
fn a_file_has_a_head_and_its_items() {
    let mut cx = context(vec![in_mod("A", &["k"]), in_mod("B", &["k"])]);
    cx.codegen_items = vec![1, 0];
    assert!(cx.can_write_items(&cx.items_to_generate()));
    let text = Codegen::new(Notes { cx, tag: "" }).write_file(String::from("idl"), flat);
    let code = |name, did| empty_struct_code(name, did, "#[repr(C)]");
    assert_eq!(
        text,
        format!(
            r#"// head
        #![allow(warnings, clippy::all)]
                {}{}
        "#,
            code("B", 1),
            code("A", 0)
        )
    );
}

#[test]
fn a_namespace_is_named_after_the_file() {
    assert_eq!(namespace_name("idl.gen.rs"), "idl");
    assert_eq!(namespace_name("idl"), "idl");
    assert_eq!(namespace_name(".rs"), "");
    assert_eq!(namespace_name(""), "");
    assert_eq!(namespace_name("\u{e9}t\u{e9}.rs"), "\u{e9}t\u{e9}");
}

#[test]
fn one_file_is_generated_in_single_file_mode() {
    let mut cx = context(vec![in_mod("A", &["k"])]);
    cx.codegen_items = vec![0];
    assert!(cx.can_write_items(&cx.items_to_generate()));
    match Codegen::new(Notes { cx, tag: "" }).gen(flat) {
        Output::File { file_path, ns_name, text } => {
            assert_eq!(file_path, PathBuf::from("out.d/idl.gen.rs"));
            assert_eq!(ns_name, "idl");
            assert_eq!(
                text,
                format!(
                    "// head\n        #![allow(warnings, clippy::all)]\n                {}\n        ",
                    empty_struct_code("A", 0, "#[repr(C)]")
                )
            );
        }
        Output::Workspace(_) => panic!("not a workspace"),
    }
}

#[test]
fn a_workspace_is_handed_on_in_workspace_mode() {
    let mut cx = context(vec![in_mod("A", &["k"])]);
    cx.mode = Mode::Workspace(WorkspaceInfo { dir: PathBuf::from("out") });
    match Codegen::new(Notes { cx, tag: "" }).gen(flat) {
        Output::Workspace(ws) => {
            assert_eq!(ws.base_dir, PathBuf::from("out"));
            assert_eq!(ws.codegen.rust_name(0), "A");
        }
        Output::File { .. } => panic!("not a file"),
    }
    let ws = codegen(vec![node("B", None)]).write_workspace(PathBuf::from("dir"));
    assert_eq!(ws.base_dir, PathBuf::from("dir"));
    assert_eq!(ws.codegen.rust_name(0), "B");
}

#[test]
fn items_can_be_written_in_turn() {
    let cg = codegen(vec![
        node("A", Some(empty_message())),
        node("B", Some(empty_message())),
        node("C", Some(empty_message())),
    ]);
    let item = CodegenItem::from;
    let mut at_once = String::from(">");
    cg.write_all(&mut at_once, &vec![item(2), item(0), item(1)]);
    let mut in_turn = String::from(">");
    cg.write_all(&mut in_turn, &vec![item(2)]);
    cg.write_all(&mut in_turn, &vec![]);
    assert!(at_once.starts_with(&in_turn));
    cg.write_all(&mut in_turn, &vec![item(0), item(1)]);
    assert_eq!(in_turn, at_once);
}

#[test]
fn groups_keep_the_order_of_their_items() {
    let cg = codegen(vec![
        in_mod("A", &["k", "b"]),
        in_mod("B", &["k"]),
        in_mod("C", &["k", "b"]),
        in_mod("D", &["k", "b"]),
    ]);
    let items: Vec<CodegenItem> = [3, 1, 0, 2, 0].into_iter().map(CodegenItem::from).collect();
    assert!(items.iter().all(|item| cg.can_place(item.def_id)));
    let mut groups: Vec<(Vec<String>, Vec<DefId>)> = cg
        .group_items(items)
        .into_iter()
        .map(|group| (group.path, group.items.iter().map(|item| item.def_id).collect()))
        .collect();
    groups.sort();
    assert_eq!(
        groups,
        [(strings(&["k"]), vec![1]), (strings(&["k", "b"]), vec![3, 0, 2, 0])]
    );
    assert!(cg.group_items(Vec::new()).is_empty());
}

#[test]
fn checks_spoil_nothing_and_only_structs_show_them() {
    let mut nodes = vec![
        node("A", Some(empty_message())),
        node("E", Some(Item::Enum(Enum { variants: Vec::new(), repr: None }))),
        node("T", Some(Item::NewType(NewType { ty: ty("u8") }))),
    ];
    nodes[1].adjust = adjust(false, &["#[x]"], &["impl A;"]);
    let mut cg = codegen(nodes);
    let items: Vec<CodegenItem> = [0, 1, 2].into_iter().map(CodegenItem::from).collect();
    assert!(cg.can_write_items(&items));
    let before: Vec<String> = items.iter().map(|item| write_item(&cg, *item)).collect();
    cg.check_items(&items);
    assert!(cg.can_write_items(&items));
    let after: Vec<String> = items.iter().map(|item| write_item(&cg, *item)).collect();
    assert_eq!(after[0], before[0].replacen('>', ">#[repr(C)]", 1));
    assert_eq!(after[1..], before[1..]);
}

#[test]
fn modules_are_put_together_in_the_order_of_the_tree() {
    let texts = pkgs(&[(&["b"], "2"), (&["a"], "1"), (&["c"], "3")]);
    let mut stream = String::from(">");
    put_together(texts, &mut stream, flat);
    assert_eq!(stream, ">123");
}

#[test]
fn a_path_without_a_file_name_generates_nothing() {
    for path in ["", "/", "out/.."] {
        let mut cx = context(vec![]);
        cx.mode = Mode::SingleFile { file_path: PathBuf::from(path) };
        assert!(!cx.can_gen());
        assert!(Codegen::new(Notes { cx, tag: "" }).try_gen(flat).is_none());
    }
    // Nor does an item that does not exist.
    let mut cx = context(vec![]);
    cx.codegen_items = vec![0];
    assert!(!cx.can_gen());
    assert!(Codegen::new(Notes { cx, tag: "" }).try_gen(flat).is_none());
}

#[test]
fn the_namespace_comes_from_the_path() {
    for (path, name) in [("out.d/idl.gen.rs", "idl"), ("a/b/", "b"), ("a/./c.rs/.", "c"), ("d", "d")] {
        let mut cx = context(vec![]);
        cx.mode = Mode::SingleFile { file_path: PathBuf::from(path) };
        assert!(cx.can_gen());
        match Codegen::new(Notes { cx, tag: "" }).try_gen(flat) {
            Some(Output::File { file_path, ns_name, .. }) => {
                assert_eq!(file_path, PathBuf::from(path));
                assert_eq!(ns_name, name);
            }
            _ => panic!("not a file"),
        }
    }
}

#[test]
fn a_run_keeps_the_rest_of_the_backend() {
    let cx = context(vec![in_mod("A", &["k"]), in_mod("B", &["k", "b"])]);
    let mut cg = Codegen::new(Notes { cx, tag: "mine " });
    let items: Vec<CodegenItem> = [0, 1].into_iter().map(CodegenItem::from).collect();
    assert!(cg.can_write_items(&items));
    let mut stream = String::new();
    cg.write_items(&mut stream, items.clone(), flat);
    assert!(stream.contains("<mine struct 0 in 0>"));
    assert!(stream.contains("<mine struct 1 in 1>"));
    cg.check_items(&items);
    assert!(write_item(&cg, items[0]).ends_with("<mine struct 0 in 0>"));
}
