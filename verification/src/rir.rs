//! The resolved intermediate representation: what an interface definition
//! says once its names have been resolved to definition ids.
//!
//! Every type has a view, a plain mathematical value in which vectors are
//! sequences and strings are sequences of characters. Contracts speak of the
//! views.
use vstd::prelude::*;

verus! {

/// The number of a definition. Items, struct fields and enum variants all have
/// one; it indexes the nodes of a [`Context`](crate::context::Context).
pub type DefId = u32;

/// A reference to another definition.
#[derive(Clone, Copy, Debug, PartialEq, Eq, Structural)]
pub struct Path {
    pub did: DefId,
}

/// What a type is made of, as far as generation tells types apart.
#[derive(Clone, Copy, Debug, PartialEq, Eq, Structural)]
pub enum TyKind {
    /// A definition of the same program.
    Path(Path),
    /// A builtin or a container of other types.
    Builtin,
}

/// A type where it is used: in a field, an argument, a return value or a
/// variant.
#[derive(Debug)]
pub struct Ty {
    pub kind: TyKind,
    /// The type as Rust source, written as the item that holds it sees it.
    pub code: String,
    /// Whether a value of the type lies wholly on the stack, once this is known.
    pub in_stack: Option<bool>,
}

/// View of [`Ty`].
pub struct TyView {
    pub kind: TyKind,
    pub code: Seq<char>,
    pub in_stack: Option<bool>,
}

impl View for Ty {
    type V = TyView;

    open spec fn view(&self) -> TyView {
        TyView { kind: self.kind, code: self.code@, in_stack: self.in_stack }
    }
}

/// Whether a struct field must be present.
#[derive(Clone, Copy, Debug, PartialEq, Eq, Structural)]
pub enum FieldKind {
    Required,
    Optional,
}

/// A field of a message.
#[derive(Debug)]
pub struct Field {
    pub did: DefId,
    pub kind: FieldKind,
    pub ty: Ty,
}

/// View of [`Field`].
pub struct FieldView {
    pub did: DefId,
    pub kind: FieldKind,
    pub ty: TyView,
}

impl View for Field {
    type V = FieldView;

    open spec fn view(&self) -> FieldView {
        FieldView { did: self.did, kind: self.kind, ty: self.ty@ }
    }
}

impl Field {
    /// Whether the field may be absent.
    pub fn is_optional(&self) -> (b: bool)
        ensures
            b == (self@.kind is Optional),
    {
        match self.kind {
            FieldKind::Required => false,
            FieldKind::Optional => true,
        }
    }
}

/// A struct-like definition.
#[derive(Debug)]
pub struct Message {
    pub fields: Vec<Field>,
    /// Whether all of the message lies on the stack, once this is known.
    pub all_in_stack: Option<bool>,
}

/// View of [`Message`].
#[verifier::ext_equal]
pub struct MessageView {
    pub fields: Seq<FieldView>,
    pub all_in_stack: Option<bool>,
}

impl View for Message {
    type V = MessageView;

    open spec fn view(&self) -> MessageView {
        MessageView {
            fields: Seq::new(self.fields@.len(), |i: int| self.fields@[i]@),
            all_in_stack: self.all_in_stack,
        }
    }
}

impl Message {
    /// Whether the message is known to lie wholly on the stack.
    pub fn is_all_in_stack(&self) -> (b: bool)
        ensures
            b == (self@.all_in_stack == Some(true)),
    {
        match self.all_in_stack {
            Some(b) => b,
            None => false,
        }
    }
}

/// The integer type that holds the discriminants of an enum.
#[derive(Clone, Copy, Debug, PartialEq, Eq, Structural)]
pub enum EnumRepr {
    I32,
}

/// A variant of an enum.
#[derive(Debug)]
pub struct EnumVariant {
    pub did: DefId,
    pub discr: Option<i64>,
    pub fields: Vec<Ty>,
}

/// View of [`EnumVariant`].
pub struct EnumVariantView {
    pub did: DefId,
    pub discr: Option<i64>,
    pub fields: Seq<TyView>,
}

impl View for EnumVariant {
    type V = EnumVariantView;

    open spec fn view(&self) -> EnumVariantView {
        EnumVariantView {
            did: self.did,
            discr: self.discr,
            fields: Seq::new(self.fields@.len(), |i: int| self.fields@[i]@),
        }
    }
}

/// An enum-like definition.
#[derive(Debug)]
pub struct Enum {
    pub variants: Vec<EnumVariant>,
    pub repr: Option<EnumRepr>,
}

/// View of [`Enum`].
pub struct EnumView {
    pub variants: Seq<EnumVariantView>,
    pub repr: Option<EnumRepr>,
}

impl View for Enum {
    type V = EnumView;

    open spec fn view(&self) -> EnumView {
        EnumView {
            variants: Seq::new(self.variants@.len(), |i: int| self.variants@[i]@),
            repr: self.repr,
        }
    }
}

/// An argument of a method.
#[derive(Debug)]
pub struct Arg {
    pub ty: Ty,
}

/// A method of a service.
#[derive(Debug)]
pub struct Method {
    pub name: String,
    pub args: Vec<Arg>,
    pub ret: Ty,
}

/// View of [`Method`]: its arguments are given by their types.
#[verifier::ext_equal]
pub struct MethodView {
    pub name: Seq<char>,
    pub args: Seq<TyView>,
    pub ret: TyView,
}

impl View for Method {
    type V = MethodView;

    open spec fn view(&self) -> MethodView {
        MethodView {
            name: self.name@,
            args: Seq::new(self.args@.len(), |i: int| self.args@[i].ty@),
            ret: self.ret@,
        }
    }
}

/// A service definition.
#[derive(Debug)]
pub struct Service {
    pub methods: Vec<Method>,
}

/// View of [`Service`].
#[verifier::ext_equal]
pub struct ServiceView {
    pub methods: Seq<MethodView>,
}

impl View for Service {
    type V = ServiceView;

    open spec fn view(&self) -> ServiceView {
        ServiceView { methods: methods_view(self.methods@) }
    }
}

/// The views of a sequence of methods.
pub open spec fn methods_view(methods: Seq<Method>) -> Seq<MethodView> {
    Seq::new(methods.len(), |i: int| methods[i]@)
}

/// A definition that gives a type a name of its own.
#[derive(Debug)]
pub struct NewType {
    pub ty: Ty,
}

/// View of [`NewType`].
pub struct NewTypeView {
    pub ty: TyView,
}

impl View for NewType {
    type V = NewTypeView;

    open spec fn view(&self) -> NewTypeView {
        NewTypeView { ty: self.ty@ }
    }
}

/// A constant; `lit` is its literal as the definition wrote it.
#[derive(Debug)]
pub struct Const {
    pub lit: String,
}

/// View of [`Const`].
pub struct ConstView {
    pub lit: Seq<char>,
}

impl View for Const {
    type V = ConstView;

    open spec fn view(&self) -> ConstView {
        ConstView { lit: self.lit@ }
    }
}

/// A module: the definitions that it holds, in order.
#[derive(Debug)]
pub struct Mod {
    pub items: Vec<DefId>,
}

/// View of [`Mod`].
pub struct ModView {
    pub items: Seq<DefId>,
}

impl View for Mod {
    type V = ModView;

    open spec fn view(&self) -> ModView {
        ModView { items: self.items@ }
    }
}

/// A definition that code is generated for.
#[derive(Debug)]
pub enum Item {
    Message(Message),
    Enum(Enum),
    Service(Service),
    NewType(NewType),
    Const(Const),
    Mod(Mod),
}

/// View of [`Item`].
#[verifier::ext_equal]
pub enum ItemView {
    Message(MessageView),
    Enum(EnumView),
    Service(ServiceView),
    NewType(NewTypeView),
    Const(ConstView),
    Mod(ModView),
}

impl View for Item {
    type V = ItemView;

    open spec fn view(&self) -> ItemView {
        match self {
            Item::Message(m) => ItemView::Message(m@),
            Item::Enum(e) => ItemView::Enum(e@),
            Item::Service(s) => ItemView::Service(s@),
            Item::NewType(t) => ItemView::NewType(t@),
            Item::Const(c) => ItemView::Const(c@),
            Item::Mod(m) => ItemView::Mod(m@),
        }
    }
}

} // verus!
