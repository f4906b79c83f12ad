use rir_codegen::context::{Adjust, Context, Mode, Node};
use rir_codegen::rir::{
    Arg, Const, DefId, Enum, Field, FieldKind, Item, Message, Method, Mod, NewType, Path, Service,
    Ty, TyKind,
};
use rir_codegen::scalar::is_raw_ptr_field;
use std::collections::HashMap;
use std::path::PathBuf;

fn node(item: Option<Item>) -> Node {
    Node {
        rust_name: String::from("Name"),
        item,
        adjust: None,
        tags: None,
        ty_code: String::new(),
        item_path: Vec::new(),
        mod_path: Vec::new(),
        service_methods: Vec::new(),
    }
}

fn context(items: Vec<Option<Item>>) -> Context {
    Context {
        nodes: items.into_iter().map(node).collect(),
        lit_defs: Vec::new(),
        mode: Mode::SingleFile { file_path: PathBuf::from("x.rs") },
        codegen_items: Vec::new(),
        doc_header: String::new(),
    }
}

fn marked(b: bool) -> Ty {
    Ty { kind: TyKind::Builtin, code: String::new(), in_stack: Some(b) }
}

fn path(did: DefId) -> Ty {
    Ty { kind: TyKind::Path(Path { did }), code: String::new(), in_stack: None }
}

/// Fields are all numbered 0, which no test adjusts unless it says so.
fn required(ty: Ty) -> Field {
    Field { did: 0, kind: FieldKind::Required, ty }
}

fn optional(ty: Ty) -> Field {
    Field { did: 0, kind: FieldKind::Optional, ty }
}

fn message(fields: Vec<Field>) -> Option<Item> {
    Some(Item::Message(Message { fields, all_in_stack: None }))
}

fn service(methods: Vec<(Vec<Ty>, Ty)>) -> Option<Item> {
    Some(Item::Service(Service {
        methods: methods
            .into_iter()
            .map(|(args, ret)| Method {
                name: String::from("call"),
                args: args.into_iter().map(|ty| Arg { ty }).collect(),
                ret,
            })
            .collect(),
    }))
}

fn all_in_stack(cx: &Context, did: DefId) -> Option<bool> {
    match cx.item(did) {
        Some(Item::Message(m)) => m.all_in_stack,
        _ => panic!("not a message"),
    }
}

fn field_marks(cx: &Context, did: DefId) -> Vec<Option<bool>> {
    match cx.item(did) {
        Some(Item::Message(m)) => m.fields.iter().map(|f| f.ty.in_stack).collect(),
        _ => panic!("not a message"),
    }
}

fn method_marks(cx: &Context, did: DefId) -> Vec<Option<bool>> {
    match cx.item(did) {
        Some(Item::Service(s)) => s
            .methods
            .iter()
            .flat_map(|m| m.args.iter().map(|a| a.ty.in_stack).chain([m.ret.in_stack]))
            .collect(),
        _ => panic!("not a service"),
    }
}

fn check(cx: &mut Context, did: DefId) -> bool {
    assert!(cx.can_check(did));
    cx.check_scalar_ty(did, &mut HashMap::new())
}

#[test]
fn a_field_is_a_pointer_if_optional_or_boxed() {
    let adjust = |boxed| Adjust { boxed, attrs: Vec::new(), nested_items: Vec::new() };
    assert!(!is_raw_ptr_field(&required(marked(true)), None));
    assert!(!is_raw_ptr_field(&required(marked(true)), Some(&adjust(false))));
    assert!(is_raw_ptr_field(&required(marked(true)), Some(&adjust(true))));
    assert!(is_raw_ptr_field(&optional(marked(true)), None));
    assert!(is_raw_ptr_field(&optional(marked(true)), Some(&adjust(false))));
}

#[test]
fn a_message_of_stack_values_lies_on_the_stack() {
    let mut cx = context(vec![None, message(vec![required(marked(true)), required(marked(true))])]);
    assert!(check(&mut cx, 1));
    assert_eq!(all_in_stack(&cx, 1), Some(true));
    assert_eq!(field_marks(&cx, 1), [Some(true), Some(true)]);
}

#[test]
fn an_empty_message_lies_on_the_stack() {
    let mut cx = context(vec![message(vec![])]);
    assert!(check(&mut cx, 0));
    assert_eq!(all_in_stack(&cx, 0), Some(true));
}

#[test]
fn an_optional_field_rules_the_stack_out_and_is_marked() {
    let mut cx = context(vec![None, message(vec![required(marked(true)), optional(path(1))])]);
    assert!(!check(&mut cx, 1));
    assert_eq!(all_in_stack(&cx, 1), Some(false));
    assert_eq!(field_marks(&cx, 1), [Some(true), Some(false)]);
}

#[test]
fn a_boxed_field_rules_the_stack_out_even_if_marked() {
    let mut cx = context(vec![None, message(vec![required(marked(true))])]);
    cx.nodes[0].adjust =
        Some(Adjust { boxed: true, attrs: Vec::new(), nested_items: Vec::new() });
    assert!(!check(&mut cx, 1));
    assert_eq!(all_in_stack(&cx, 1), Some(false));
    assert_eq!(field_marks(&cx, 1), [Some(false)]);
}

#[test]
fn a_field_marked_off_the_stack_rules_the_stack_out() {
    let mut cx = context(vec![None, message(vec![required(marked(false)), required(marked(true))])]);
    assert!(!check(&mut cx, 1));
    assert_eq!(all_in_stack(&cx, 1), Some(false));
    assert_eq!(field_marks(&cx, 1), [Some(false), Some(true)]);
}

#[test]
fn an_unmarked_field_is_marked_but_counts_only_the_next_time() {
    // 1 holds 2, and 2 holds an optional value.
    let mut cx = context(vec![
        None,
        message(vec![required(path(2))]),
        message(vec![optional(marked(true))]),
    ]);
    assert!(check(&mut cx, 1));
    assert_eq!(all_in_stack(&cx, 1), Some(true));
    assert_eq!(field_marks(&cx, 1), [Some(false)]);
    assert_eq!(all_in_stack(&cx, 2), Some(false));
    // The second check sees the mark, the third finds what the second found.
    assert!(!check(&mut cx, 1));
    assert_eq!(all_in_stack(&cx, 1), Some(false));
    assert!(!check(&mut cx, 1));
    assert_eq!(all_in_stack(&cx, 1), Some(false));
}

#[test]
fn a_message_found_wanting_stays_so() {
    let mut cx = context(vec![None, message(vec![required(marked(true))])]);
    if let Some(Item::Message(m)) = &mut cx.nodes[1].item {
        m.all_in_stack = Some(false);
    }
    assert!(!check(&mut cx, 1));
    assert_eq!(all_in_stack(&cx, 1), Some(false));
}

#[test]
fn the_record_is_filled_and_heeded() {
    let mut cx = context(vec![
        None,
        message(vec![required(path(2)), required(path(3))]),
        message(vec![]),
        Some(Item::Enum(Enum { variants: Vec::new(), repr: None })),
    ]);
    let mut record = HashMap::new();
    assert!(cx.check_scalar_ty(1, &mut record));
    assert_eq!(record, HashMap::from([(1, true), (2, true)]));
    assert_eq!(field_marks(&cx, 1), [Some(true), Some(false)]);
    // A second check with the record left by the first changes nothing.
    assert!(cx.check_scalar_ty(1, &mut record));
    assert_eq!(record, HashMap::from([(1, true), (2, true)]));
    assert_eq!(all_in_stack(&cx, 1), Some(true));

    let mut cx = context(vec![None, message(vec![required(path(2))]), message(vec![])]);
    let mut record = HashMap::from([(2, false)]);
    assert!(cx.check_scalar_ty(1, &mut record));
    assert_eq!(record, HashMap::from([(1, true), (2, false)]));
    assert_eq!(field_marks(&cx, 1), [Some(false)]);
    assert_eq!(all_in_stack(&cx, 2), None);
    // What is in the record need not even exist.
    assert!(cx.check_scalar_ty(9, &mut HashMap::from([(9, true)])));
}

#[test]
fn other_items_never_lie_on_the_stack_and_are_not_recorded() {
    let items = vec![
        Some(Item::Enum(Enum { variants: Vec::new(), repr: None })),
        Some(Item::NewType(NewType { ty: marked(true) })),
        Some(Item::Const(Const { lit: String::from("1") })),
        Some(Item::Mod(Mod { items: vec![0] })),
    ];
    let mut cx = context(items);
    for did in 0..4 {
        let mut record = HashMap::new();
        assert!(!cx.check_scalar_ty(did, &mut record));
        assert!(record.is_empty());
    }
}

#[test]
fn a_service_follows_its_arguments_and_results() {
    let mut cx = context(vec![
        message(vec![]),
        message(vec![required(marked(false))]),
        service(vec![(vec![path(0), path(0)], path(0))]),
        service(vec![(vec![path(0), path(1)], path(0))]),
        service(vec![]),
    ]);
    let mut record = HashMap::new();
    assert!(cx.check_scalar_ty(2, &mut record));
    assert_eq!(record, HashMap::from([(0, true), (2, true)]));
    assert_eq!(method_marks(&cx, 2), [Some(true), Some(true), Some(true)]);
    assert!(!check(&mut cx, 3));
    assert_eq!(method_marks(&cx, 3), [Some(true), Some(false), Some(true)]);
    assert!(check(&mut cx, 4));
}

#[test]
fn the_last_marked_place_of_a_service_overrules_those_before_it() {
    let mut cx = context(vec![
        message(vec![]),
        message(vec![required(marked(false))]),
        // An unmarked place that is off the stack, then a marked one that is on it.
        service(vec![(vec![path(1), marked(true)], path(0))]),
        service(vec![(vec![marked(true), marked(false)], path(0))]),
        service(vec![(vec![marked(false)], marked(true)), (vec![], path(0))]),
        service(vec![(vec![marked(true)], marked(true)), (vec![], path(1))]),
    ]);
    assert!(check(&mut cx, 2));
    assert_eq!(method_marks(&cx, 2), [Some(false), Some(true), Some(true)]);
    assert!(!check(&mut cx, 3));
    assert!(check(&mut cx, 4));
    assert!(!check(&mut cx, 5));
    // Once all is marked, the last place alone decides.
    assert!(check(&mut cx, 3));
}

#[test]
fn a_check_leaves_other_items_alone() {
    let mut cx = context(vec![
        None,
        message(vec![required(path(2))]),
        message(vec![]),
        message(vec![required(path(2)), optional(marked(true))]),
    ]);
    let before = format!("{:?}", cx.nodes[3]);
    check(&mut cx, 1);
    assert_eq!(format!("{:?}", cx.nodes[3]), before);
}
