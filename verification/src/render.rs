//! The source text of single definitions.
//!
//! Of each definition the text is given twice: as a spec function, which says
//! what it is, and as a function that builds it.
use crate::context::{Context, ContextView, EnumMode};
use crate::rir::{
    ConstView, DefId, Enum, EnumRepr, EnumVariant, EnumVariantView, EnumView, Field, FieldView,
    Message, MessageView, NewType, NewTypeView,
};
use crate::text::{
    Text, i32_text, in_order, join, joined, lemma_in_order_len, signed_decimal, sort_texts, texts,
};
use vstd::prelude::*;

verus! {

/// The attributes of a definition.
pub open spec fn attrs_text(cx: ContextView, did: DefId, sep: Text) -> Text {
    joined(cx.attrs(did), sep)
}

/// The items that stand in front of a definition, in dictionary order.
pub open spec fn nested_text(cx: ContextView, did: DefId) -> Text {
    joined(in_order(cx.nested_items(did)), "\n"@)
}

/// The type of a field: boxed if an adjustment says so, and in an `Option` if
/// the field may be absent.
pub open spec fn field_ty_text(cx: ContextView, f: FieldView) -> Text {
    let plain = f.ty.code;
    let boxed = if cx.boxed(f.did) {
        "::std::boxed::Box<"@ + plain + ">"@
    } else {
        plain
    };
    if f.kind is Optional {
        "::std::option::Option<"@ + boxed + ">"@
    } else {
        boxed
    }
}

/// A field of a struct.
pub open spec fn field_text(cx: ContextView, f: FieldView) -> Text {
    attrs_text(cx, f.did, ""@) + "\n                        pub "@ + cx.rust_name(f.did) + ": "@
        + field_ty_text(cx, f) + ","@
}

/// The fields of a struct.
pub open spec fn fields_text(cx: ContextView, s: MessageView) -> Text {
    joined(Seq::new(s.fields.len(), |i: int| field_text(cx, s.fields[i])), "\n"@)
}

/// The attribute of a struct that lies wholly on the stack.
pub open spec fn repr_c_text(s: MessageView) -> Text {
    if s.all_in_stack == Some(true) {
        "#[repr(C)]"@
    } else {
        ""@
    }
}

/// A struct.
pub open spec fn struct_text(cx: ContextView, did: DefId, s: MessageView) -> Text {
    repr_c_text(s) + "\n            #[derive(Clone, PartialEq)]\n            pub struct "@
        + cx.rust_name(did) + " {\n                "@ + fields_text(cx, s) + "\n            }"@
}

/// Whether all that the struct's text names is known.
pub open spec fn struct_ok(cx: ContextView, did: DefId, s: MessageView) -> bool {
    &&& cx.knows(did)
    &&& forall|i: int| 0 <= i < s.fields.len() ==> cx.knows((#[trigger] s.fields[i]).did)
}

/// The integer that a discriminant is written as: its low 32 bits, with sign.
pub open spec fn discr_value(discr: i64) -> int {
    let low = discr as int % 0x1_0000_0000;
    if low < 0x8000_0000 {
        low
    } else {
        low - 0x1_0000_0000
    }
}

/// A variant of an enum that is a struct around an integer.
pub open spec fn const_variant_text(cx: ContextView, v: EnumVariantView) -> Text {
    "pub const "@ + cx.rust_name(v.did) + ": Self = Self("@ + signed_decimal(
        discr_value(v.discr->0),
    ) + ");"@
}

/// The variants of an enum that is a struct around an integer.
pub open spec fn const_variants_text(cx: ContextView, e: EnumView) -> Text {
    joined(Seq::new(e.variants.len(), |i: int| const_variant_text(cx, e.variants[i])), ""@)
}

/// An enum as a struct around an integer.
pub open spec fn new_type_enum_text(cx: ContextView, did: DefId, e: EnumView) -> Text {
    let name = cx.rust_name(did);
    let repr = "i32"@;
    "#[derive(Clone, PartialEq, Copy)]\n            #[repr(transparent)]\n            pub struct "@
        + name + "("@ + repr + ");\n\n            impl "@ + name + " {\n                "@
        + const_variants_text(cx, e) + "\n\n                pub fn inner(&self) -> "@ + repr
        + " {\n                    self.0\n                }\n            }\n\n            impl ::std::convert::From<"@
        + repr + "> for "@ + name + " {\n                fn from(value: "@ + repr
        + ") -> Self {\n                    Self(value)\n                }\n            }"@
}

/// Whether an enum can be a struct around an integer: the type of the integer is
/// given, and so is a discriminant for each variant.
pub open spec fn new_type_enum_ok(cx: ContextView, did: DefId, e: EnumView) -> bool {
    &&& cx.knows(did)
    &&& e.repr is Some
    &&& forall|i: int|
        0 <= i < e.variants.len() ==> cx.knows((#[trigger] e.variants[i]).did)
            && e.variants[i].discr is Some
}

/// The types that a variant holds, in brackets if there are any.
pub open spec fn variant_fields_text(v: EnumVariantView) -> Text {
    let fields = joined(Seq::new(v.fields.len(), |i: int| v.fields[i].code), ","@);
    if fields.len() == 0 {
        Seq::empty()
    } else {
        "("@ + fields + ")"@
    }
}

/// The discriminant of a variant, if it has one.
pub open spec fn discr_text(v: EnumVariantView) -> Text {
    match v.discr {
        Some(discr) => "="@ + signed_decimal(discr_value(discr)),
        None => Seq::empty(),
    }
}

/// A variant of an enum.
pub open spec fn variant_text(cx: ContextView, v: EnumVariantView) -> Text {
    attrs_text(cx, v.did, "\n"@) + "\n                        "@ + cx.rust_name(v.did) + " "@
        + variant_fields_text(v) + " "@ + discr_text(v) + ","@
}

/// The variants of an enum.
pub open spec fn variants_text(cx: ContextView, e: EnumView) -> Text {
    joined(Seq::new(e.variants.len(), |i: int| variant_text(cx, e.variants[i])), "\n"@)
}

/// The attributes that an enum has because its discriminants have a type.
pub open spec fn enum_repr_text(e: EnumView) -> Text {
    if e.repr is None {
        ""@
    } else if e.variants.len() == 0 {
        "# [derive (Copy)]"@
    } else {
        "# [repr (i32)] # [derive (Copy)]"@
    }
}

/// An enum as an enum.
pub open spec fn plain_enum_text(cx: ContextView, did: DefId, e: EnumView) -> Text {
    "\n            #[derive(Clone, PartialEq)]\n            "@ + enum_repr_text(e)
        + "\n            pub enum "@ + cx.rust_name(did) + " {\n                "@ + variants_text(
        cx,
        e,
    ) + "\n            }\n            "@
}

/// Whether an enum can be an enum: only where the type of the discriminants is
/// given has a variant one, and it fits the machine's integers.
pub open spec fn plain_enum_ok(cx: ContextView, did: DefId, e: EnumView) -> bool {
    &&& cx.knows(did)
    &&& forall|i: int|
        0 <= i < e.variants.len() ==> {
            &&& cx.knows((#[trigger] e.variants[i]).did)
            &&& e.variants[i].discr matches Some(discr) ==> e.repr is Some && isize::MIN <= discr
                <= isize::MAX
        }
}

/// Whether the enum is tagged to become a struct around an integer.
pub open spec fn is_new_type_enum(cx: ContextView, did: DefId) -> bool {
    cx.node_tags(did) matches Some(tags) && tags.enum_mode == Some(EnumMode::NewType)
}

/// An enum, in the form that its tags ask for.
pub open spec fn enum_text(cx: ContextView, did: DefId, e: EnumView) -> Text {
    if is_new_type_enum(cx, did) {
        new_type_enum_text(cx, did, e)
    } else {
        plain_enum_text(cx, did, e)
    }
}

/// Whether an enum has tags and can take the form that they ask for.
pub open spec fn enum_ok(cx: ContextView, did: DefId, e: EnumView) -> bool {
    &&& cx.node_tags(did) is Some
    &&& if is_new_type_enum(cx, did) {
        new_type_enum_ok(cx, did, e)
    } else {
        plain_enum_ok(cx, did, e)
    }
}

/// The trait of a service whose methods have these sources; empty ones do not
/// count, and if none is left there is no trait.
pub open spec fn service_text(name: Text, codes: Seq<Text>) -> Text {
    let methods = joined(codes.filter(|code: Text| code.len() > 0), "\n"@);
    if methods.len() == 0 {
        Seq::empty()
    } else {
        "\n            pub trait "@ + name + " {\n                "@ + methods
            + "\n            }\n            "@
    }
}

/// A new type: a struct around the type, with the ways in and out.
pub open spec fn new_type_text(cx: ContextView, did: DefId, t: NewTypeView) -> Text {
    let name = cx.rust_name(did);
    let ty = t.ty.code;
    "\n            #[derive(Clone, PartialEq)]\n            pub struct "@ + name + "(pub "@ + ty
        + ");\n\n            impl ::std::ops::Deref for "@ + name
        + " {\n                type Target = "@ + ty
        + ";\n\n                fn deref(&self) -> &Self::Target {\n                    &self.0\n                }\n            }\n\n            impl From<"@
        + ty + "> for "@ + name + " {\n                fn from(v: "@ + ty
        + ") -> Self {\n                    Self(v)\n                }\n            }\n            "@
}

/// The definition of a constant, if its literal can be one of its type.
pub open spec fn const_text(cx: ContextView, did: DefId, c: ConstView) -> Option<Text> {
    cx.def_lit(cx.rust_name(did), c.lit, cx.nodes[did as int].ty_code)
}

/// A reference to an item that stands elsewhere.
pub open spec fn re_pub_text(cx: ContextView, did: DefId) -> Text {
    "pub use ::"@ + joined(cx.nodes[did as int].item_path, "::"@) + ";"@
}

/// A whole file: the head, then the text of its items.
pub open spec fn file_text(doc: Text, stream: Text) -> Text {
    doc + "\n        #![allow(warnings, clippy::all)]\n                "@ + stream + "\n        "@
}

pub(crate) fn attrs_code(cx: &Context, did: DefId, sep: &str) -> (res: String)
    ensures
        res@ == attrs_text(cx@, did, sep@),
{
    match cx.adjust(did) {
        Some(adjust) => join(adjust.attrs(), sep),
        None => String::new(),
    }
}

pub(crate) fn nested_code(cx: &Context, did: DefId) -> (res: String)
    ensures
        res@ == nested_text(cx@, did),
{
    match cx.adjust(did) {
        Some(adjust) => join(&sort_texts(&adjust.nested_items), "\n"),
        None => {
            proof {
                lemma_in_order_len(cx@.nested_items(did));
            }
            String::new()
        },
    }
}

fn field_ty_code(cx: &Context, f: &Field) -> (res: String)
    ensures
        res@ == field_ty_text(cx@, f@),
{
    let mut ty = cx.codegen_item_ty(&f.ty).clone();
    if let Some(adjust) = cx.adjust(f.did) {
        if adjust.boxed() {
            let mut boxed = "::std::boxed::Box<".to_owned();
            boxed.append(ty.as_str());
            boxed.append(">");
            ty = boxed;
        }
    }
    if f.is_optional() {
        let mut optional = "::std::option::Option<".to_owned();
        optional.append(ty.as_str());
        optional.append(">");
        ty = optional;
    }
    ty
}

fn field_code(cx: &Context, f: &Field) -> (res: String)
    requires
        cx@.knows(f@.did),
    ensures
        res@ == field_text(cx@, f@),
{
    let mut res = attrs_code(cx, f.did, "");
    res.append("\n                        pub ");
    res.append(cx.rust_name(f.did).as_str());
    res.append(": ");
    res.append(field_ty_code(cx, f).as_str());
    res.append(",");
    res
}

/// The source of a struct.
pub fn struct_code(cx: &Context, did: DefId, s: &Message) -> (res: String)
    requires
        struct_ok(cx@, did, s@),
    ensures
        res@ == struct_text(cx@, did, s@),
{
    let mut fields: Vec<String> = Vec::new();
    let mut i: usize = 0;
    while i < s.fields.len()
        invariant
            struct_ok(cx@, did, s@),
            i <= s.fields@.len(),
            texts(fields@) == Seq::new(i as nat, |j: int| field_text(cx@, s@.fields[j])),
        decreases s.fields@.len() - i,
    {
        let ghost before = fields@;
        assert(s@.fields[i as int] == s.fields@[i as int]@);
        let code = field_code(cx, &s.fields[i]);
        fields.push(code);
        assert(texts(fields@) =~= texts(before).push(code@));
        i += 1;
        assert(texts(fields@) =~= Seq::new(i as nat, |j: int| field_text(cx@, s@.fields[j])));
    }
    let mut res = if s.is_all_in_stack() {
        "#[repr(C)]".to_owned()
    } else {
        "".to_owned()
    };
    res.append("\n            #[derive(Clone, PartialEq)]\n            pub struct ");
    res.append(cx.rust_name(did).as_str());
    res.append(" {\n                ");
    res.append(join(&fields, "\n").as_str());
    res.append("\n            }");
    res
}

fn discr_code(discr: i64) -> (res: String)
    ensures
        res@ == signed_decimal(discr_value(discr)),
{
    let x: i32 = #[verifier::truncate] (discr as i32);
    assert((discr as i32) as i64 == {
        let low = discr & 0xffff_ffffi64;
        if low < 0x8000_0000i64 {
            low as int
        } else {
            low - 0x1_0000_0000i64
        }
    }) by (bit_vector);
    assert(discr & 0xffff_ffffi64 == discr % 0x1_0000_0000i64) by (bit_vector);
    i32_text(x)
}

/// The source of an enum as a struct around an integer.
pub fn new_type_enum_code(cx: &Context, did: DefId, e: &Enum) -> (res: String)
    requires
        new_type_enum_ok(cx@, did, e@),
    ensures
        res@ == new_type_enum_text(cx@, did, e@),
{
    let mut variants: Vec<String> = Vec::new();
    let mut i: usize = 0;
    while i < e.variants.len()
        invariant
            new_type_enum_ok(cx@, did, e@),
            i <= e.variants@.len(),
            texts(variants@) == Seq::new(i as nat, |j: int| const_variant_text(cx@, e@.variants[j])),
        decreases e.variants@.len() - i,
    {
        let ghost before = variants@;
        assert(e@.variants[i as int] == e.variants@[i as int]@);
        let v = &e.variants[i];
        let mut code = "pub const ".to_owned();
        code.append(cx.rust_name(v.did).as_str());
        code.append(": Self = Self(");
        code.append(discr_code(v.discr.unwrap()).as_str());
        code.append(");");
        variants.push(code);
        assert(texts(variants@) =~= texts(before).push(code@));
        i += 1;
        assert(texts(variants@) =~= Seq::new(
            i as nat,
            |j: int| const_variant_text(cx@, e@.variants[j]),
        ));
    }
    let name = cx.rust_name(did).as_str();
    let repr: &str = match e.repr {
        Some(EnumRepr::I32) => "i32",
        None => "",
    };
    let mut res =
        "#[derive(Clone, PartialEq, Copy)]\n            #[repr(transparent)]\n            pub struct ".to_owned();
    res.append(name);
    res.append("(");
    res.append(repr);
    res.append(");\n\n            impl ");
    res.append(name);
    res.append(" {\n                ");
    res.append(join(&variants, "").as_str());
    res.append("\n\n                pub fn inner(&self) -> ");
    res.append(repr);
    res.append(
        " {\n                    self.0\n                }\n            }\n\n            impl ::std::convert::From<",
    );
    res.append(repr);
    res.append("> for ");
    res.append(name);
    res.append(" {\n                fn from(value: ");
    res.append(repr);
    res.append(") -> Self {\n                    Self(value)\n                }\n            }");
    res
}

fn variant_fields_code(cx: &Context, v: &EnumVariant) -> (res: String)
    ensures
        res@ == variant_fields_text(v@),
{
    let mut codes: Vec<String> = Vec::new();
    let mut i: usize = 0;
    while i < v.fields.len()
        invariant
            i <= v.fields@.len(),
            texts(codes@) == Seq::new(i as nat, |j: int| v@.fields[j].code),
        decreases v.fields@.len() - i,
    {
        let ghost before = codes@;
        assert(v@.fields[i as int] == v.fields@[i as int]@);
        let code = cx.codegen_item_ty(&v.fields[i]).clone();
        codes.push(code);
        assert(texts(codes@) =~= texts(before).push(code@));
        i += 1;
        assert(texts(codes@) =~= Seq::new(i as nat, |j: int| v@.fields[j].code));
    }
    let fields = join(&codes, ",");
    if fields.as_str().is_empty() {
        String::new()
    } else {
        let mut res = "(".to_owned();
        res.append(fields.as_str());
        res.append(")");
        res
    }
}

fn variant_code(cx: &Context, v: &EnumVariant) -> (res: String)
    requires
        cx@.knows(v@.did),
    ensures
        res@ == variant_text(cx@, v@),
{
    let discr = match v.discr {
        Some(discr) => {
            let mut discr_res = "=".to_owned();
            discr_res.append(discr_code(discr).as_str());
            discr_res
        },
        None => String::new(),
    };
    let mut res = attrs_code(cx, v.did, "\n");
    res.append("\n                        ");
    res.append(cx.rust_name(v.did).as_str());
    res.append(" ");
    res.append(variant_fields_code(cx, v).as_str());
    res.append(" ");
    res.append(discr.as_str());
    res.append(",");
    res
}

/// The source of an enum as an enum.
pub fn plain_enum_code(cx: &Context, did: DefId, e: &Enum) -> (res: String)
    requires
        plain_enum_ok(cx@, did, e@),
    ensures
        res@ == plain_enum_text(cx@, did, e@),
{
    let mut variants: Vec<String> = Vec::new();
    let mut i: usize = 0;
    while i < e.variants.len()
        invariant
            plain_enum_ok(cx@, did, e@),
            i <= e.variants@.len(),
            texts(variants@) == Seq::new(i as nat, |j: int| variant_text(cx@, e@.variants[j])),
        decreases e.variants@.len() - i,
    {
        let ghost before = variants@;
        assert(e@.variants[i as int] == e.variants@[i as int]@);
        let code = variant_code(cx, &e.variants[i]);
        variants.push(code);
        assert(texts(variants@) =~= texts(before).push(code@));
        i += 1;
        assert(texts(variants@) =~= Seq::new(i as nat, |j: int| variant_text(cx@, e@.variants[j])));
    }
    let repr: &str = match e.repr {
        Some(EnumRepr::I32) => if e.variants.len() == 0 {
            "# [derive (Copy)]"
        } else {
            "# [repr (i32)] # [derive (Copy)]"
        },
        None => "",
    };
    let mut res = "\n            #[derive(Clone, PartialEq)]\n            ".to_owned();
    res.append(repr);
    res.append("\n            pub enum ");
    res.append(cx.rust_name(did).as_str());
    res.append(" {\n                ");
    res.append(join(&variants, "\n").as_str());
    res.append("\n            }\n            ");
    res
}

/// The source of the trait of a service whose methods have these sources.
pub fn service_code(name: &String, codes: &Vec<String>) -> (res: String)
    ensures
        res@ == service_text(name@, texts(codes@)),
{
    let ghost kept = |code: Text| code.len() > 0;
    let mut methods: Vec<String> = Vec::new();
    let mut i: usize = 0;
    while i < codes.len()
        invariant
            i <= codes@.len(),
            kept == (|code: Text| code.len() > 0),
            texts(methods@) == texts(codes@).take(i as int).filter(kept),
        decreases codes@.len() - i,
    {
        proof {
            let all = texts(codes@);
            assert(all.take(i + 1).drop_last() =~= all.take(i as int));
            assert(all.take(i + 1).last() == codes@[i as int]@);
            reveal(Seq::filter);
        }
        if !codes[i].as_str().is_empty() {
            let ghost before = methods@;
            let code = codes[i].clone();
            methods.push(code);
            assert(texts(methods@) =~= texts(before).push(code@));
        }
        i += 1;
    }
    assert(texts(codes@).take(i as int) =~= texts(codes@));
    let body = join(&methods, "\n");
    if body.as_str().is_empty() {
        String::new()
    } else {
        let mut res = "\n            pub trait ".to_owned();
        res.append(name.as_str());
        res.append(" {\n                ");
        res.append(body.as_str());
        res.append("\n            }\n            ");
        res
    }
}

/// The source of a new type.
pub fn new_type_code(cx: &Context, did: DefId, t: &NewType) -> (res: String)
    requires
        cx@.knows(did),
    ensures
        res@ == new_type_text(cx@, did, t@),
{
    let name = cx.rust_name(did).as_str();
    let ty = cx.codegen_item_ty(&t.ty).as_str();
    let mut res = "\n            #[derive(Clone, PartialEq)]\n            pub struct ".to_owned();
    res.append(name);
    res.append("(pub ");
    res.append(ty);
    res.append(");\n\n            impl ::std::ops::Deref for ");
    res.append(name);
    res.append(" {\n                type Target = ");
    res.append(ty);
    res.append(
        ";\n\n                fn deref(&self) -> &Self::Target {\n                    &self.0\n                }\n            }\n\n            impl From<",
    );
    res.append(ty);
    res.append("> for ");
    res.append(name);
    res.append(" {\n                fn from(v: ");
    res.append(ty);
    res.append(
        ") -> Self {\n                    Self(v)\n                }\n            }\n            ",
    );
    res
}

/// The source of a reference to an item that stands elsewhere.
pub fn re_pub_code(cx: &Context, did: DefId) -> (res: String)
    requires
        cx@.knows(did),
    ensures
        res@ == re_pub_text(cx@, did),
{
    let mut res = "pub use ::".to_owned();
    res.append(join(cx.item_path(did), "::").as_str());
    res.append(";");
    res
}

/// The source of a whole file.
pub fn file_code(doc: &str, stream: &str) -> (res: String)
    ensures
        res@ == file_text(doc@, stream@),
{
    let mut res = doc.to_owned();
    res.append("\n        #![allow(warnings, clippy::all)]\n                ");
    res.append(stream);
    res.append("\n        ");
    res
}

} // verus!
