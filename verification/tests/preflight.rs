use rir_codegen::codegen::{CodegenItem, CodegenKind};
use rir_codegen::context::{Context, EnumMode, LitDef, Mode, Node, Tags, WorkspaceInfo};
use rir_codegen::rir::{
    Arg, Const, DefId, Enum, EnumRepr, EnumVariant, Field, FieldKind, Item, Message, Method, Mod,
    Path, Service, Ty, TyKind,
};
use std::path::PathBuf;

fn node(item: Option<Item>) -> Node {
    Node {
        rust_name: String::from("N"),
        item,
        adjust: None,
        tags: Some(Tags { enum_mode: None }),
        ty_code: String::from("u8"),
        item_path: Vec::new(),
        mod_path: Vec::new(),
        service_methods: Vec::new(),
    }
}

fn context(items: Vec<Option<Item>>) -> Context {
    Context {
        nodes: items.into_iter().map(node).collect(),
        lit_defs: Vec::new(),
        mode: Mode::SingleFile { file_path: PathBuf::from("x.rs") },
        codegen_items: Vec::new(),
        doc_header: String::new(),
    }
}

fn ty(kind: TyKind) -> Ty {
    Ty { kind, code: String::new(), in_stack: None }
}

fn holds(kind: FieldKind, dids: &[DefId]) -> Option<Item> {
    let fields = dids
        .iter()
        .map(|did| Field { did: 0, kind, ty: ty(TyKind::Path(Path { did: *did })) })
        .collect();
    Some(Item::Message(Message { fields, all_in_stack: None }))
}

fn direct(did: DefId) -> CodegenItem {
    CodegenItem::from(did)
}

#[test]
fn circles_cannot_be_checked() {
    let cx = context(vec![
        holds(FieldKind::Required, &[1]),
        holds(FieldKind::Required, &[2]),
        holds(FieldKind::Required, &[1]),
        holds(FieldKind::Optional, &[3]),
        holds(FieldKind::Required, &[3, 3]),
    ]);
    assert!(!cx.can_check(0));
    assert!(!cx.can_check(1));
    assert!(!cx.can_check(2));
    assert!(cx.can_check(3));
    assert!(cx.can_check(4));
}

#[test]
fn a_long_chain_can_be_checked() {
    let mut items: Vec<Option<Item>> =
        (1..200).map(|did| holds(FieldKind::Required, &[did, did])).collect();
    items.push(holds(FieldKind::Required, &[]));
    let cx = context(items);
    assert!(cx.can_check(0));
}

#[test]
fn what_is_missing_cannot_be_checked() {
    let builtin = |in_stack| {
        Some(Item::Message(Message {
            fields: vec![Field {
                did: 0,
                kind: FieldKind::Required,
                ty: Ty { kind: TyKind::Builtin, code: String::new(), in_stack },
            }],
            all_in_stack: None,
        }))
    };
    let serves = |args: Vec<Ty>, ret| {
        let args = args.into_iter().map(|ty| Arg { ty }).collect();
        Some(Item::Service(Service {
            methods: vec![Method { name: String::from("call"), args, ret }],
        }))
    };
    let cx = context(vec![
        None,
        holds(FieldKind::Required, &[0]),
        holds(FieldKind::Required, &[99]),
        builtin(None),
        builtin(Some(true)),
        serves(vec![ty(TyKind::Path(Path { did: 4 }))], ty(TyKind::Path(Path { did: 4 }))),
        serves(vec![], ty(TyKind::Builtin)),
        serves(vec![ty(TyKind::Path(Path { did: 1 }))], ty(TyKind::Path(Path { did: 4 }))),
    ]);
    assert!(!cx.can_check(0));
    assert!(!cx.can_check(1));
    assert!(!cx.can_check(2));
    assert!(!cx.can_check(3));
    assert!(cx.can_check(4));
    assert!(cx.can_check(5));
    assert!(!cx.can_check(6));
    assert!(!cx.can_check(7));
    assert!(!cx.can_check(8));
}

#[test]
fn an_enum_needs_its_tags_and_discriminants() {
    let variant = |discr| EnumVariant { did: 0, discr, fields: Vec::new() };
    let mut cx = context(vec![None]);
    let with_repr = Enum { variants: vec![variant(Some(1))], repr: Some(EnumRepr::I32) };
    let without_repr = Enum { variants: vec![variant(Some(1))], repr: None };
    let bare = Enum { variants: vec![variant(None)], repr: None };
    let half = Enum { variants: vec![variant(None)], repr: Some(EnumRepr::I32) };
    assert!(cx.can_write_enum(0, &with_repr));
    assert!(!cx.can_write_enum(0, &without_repr));
    assert!(cx.can_write_enum(0, &bare));
    assert!(cx.can_write_enum(0, &half));
    cx.nodes[0].tags = Some(Tags { enum_mode: Some(EnumMode::NewType) });
    assert!(cx.can_write_enum(0, &with_repr));
    assert!(!cx.can_write_enum(0, &without_repr));
    assert!(!cx.can_write_enum(0, &bare));
    assert!(!cx.can_write_enum(0, &half));
    cx.nodes[0].tags = None;
    assert!(!cx.can_write_enum(0, &bare));
    assert!(!cx.can_write_enum(1, &bare));
}

#[test]
fn a_constant_needs_its_definition() {
    let mut cx = context(vec![Some(Item::Const(Const { lit: String::from("1") }))]);
    assert!(!cx.can_write(direct(0)));
    cx.lit_defs.push(LitDef {
        name: String::from("N"),
        lit: String::from("1"),
        ty: String::from("u8"),
        def: String::from("pub const N: u8 = 1;"),
    });
    assert!(cx.can_write(direct(0)));
}

#[test]
fn a_module_must_not_hold_itself() {
    let module = |items: &[DefId]| Some(Item::Mod(Mod { items: items.to_vec() }));
    let cx = context(vec![module(&[1]), module(&[2, 2]), module(&[]), module(&[4]), module(&[3])]);
    assert!(cx.can_write(direct(0)));
    assert!(cx.can_emit(direct(0)));
    assert!(!cx.can_write(direct(3)));
    assert!(!cx.can_write(direct(9)));
    // A reference does not look into what it refers to.
    assert!(cx.can_write(CodegenItem { def_id: 3, kind: CodegenKind::RePub }));
    assert!(cx.can_emit(CodegenItem { def_id: 3, kind: CodegenKind::RePub }));
    assert!(!cx.can_write(CodegenItem { def_id: 9, kind: CodegenKind::RePub }));
}

#[test]
fn in_a_workspace_an_item_needs_a_crate() {
    let mut cx = context(vec![holds(FieldKind::Required, &[])]);
    assert!(cx.can_place(0));
    assert!(cx.can_write_items(&vec![direct(0)]));
    cx.mode = Mode::Workspace(WorkspaceInfo { dir: PathBuf::from("out") });
    assert!(!cx.can_place(0));
    assert!(!cx.can_write_items(&vec![direct(0)]));
    cx.nodes[0].mod_path = vec![String::from("krate")];
    assert!(cx.can_place(0));
    assert!(cx.can_write_items(&vec![direct(0)]));
    assert!(!cx.can_place(1));
}

#[test]
fn a_struct_needs_its_fields() {
    let cx = context(vec![None]);
    let field = |did| Field { did, kind: FieldKind::Required, ty: ty(TyKind::Builtin) };
    let known = Message { fields: vec![field(0)], all_in_stack: None };
    let unknown = Message { fields: vec![field(0), field(1)], all_in_stack: None };
    assert!(cx.can_write_struct(0, &known));
    assert!(!cx.can_write_struct(1, &known));
    assert!(!cx.can_write_struct(0, &unknown));
}
