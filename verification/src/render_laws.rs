//! What holds of the text of definitions, said of the definitions alone.
use crate::context::{AdjustView, ContextView, EnumMode, LitDefView};
use crate::render::{
    attrs_text, const_text, const_variant_text, const_variants_text, enum_ok, enum_text,
    field_text, fields_text, file_text, nested_text, new_type_enum_text,
    new_type_text, plain_enum_text, re_pub_text, service_text, struct_ok,
    struct_text, variant_text, variants_text,
};
use crate::rir::{
    ConstView, DefId, EnumVariantView, EnumView, FieldView, MessageView, NewTypeView, TyView,
};
use crate::text::{Text, in_order, joined, lemma_in_order_len, signed_decimal};
use crate::text_laws::{ends_in, law_joined_holds_every_part, lemma_joined_push, stands_in};
use vstd::prelude::*;

verus! {

/// The adjustment that the node of a definition holds, if there is such a node
/// and it holds one.
pub open spec fn adjustment(cx: ContextView, did: DefId) -> Option<AdjustView> {
    if did < cx.nodes.len() {
        cx.nodes[did as int].adjust
    } else {
        None
    }
}

/// Whether the definition has an adjustment that says to box it.
pub open spec fn told_to_box(cx: ContextView, did: DefId) -> bool {
    adjustment(cx, did) is Some && adjustment(cx, did)->0.boxed
}

/// The name that the node of a definition holds.
pub open spec fn name_of(cx: ContextView, did: DefId) -> Text {
    cx.nodes[did as int].rust_name
}

/// The attributes of a definition are those that its adjustment lists, in that
/// order, and none if it has no adjustment.
pub proof fn law_attributes(cx: ContextView, did: DefId, sep: Text)
    ensures
        adjustment(cx, did) is None ==> attrs_text(cx, did, sep) == Seq::<char>::empty(),
        adjustment(cx, did) is Some ==> attrs_text(cx, did, sep) == joined(
            adjustment(cx, did)->0.attrs,
            sep,
        ),
{
}

/// What stands in front of a definition are the items that its adjustment lists,
/// in dictionary order, one to a line, and nothing if it has no adjustment.
pub proof fn law_nested_items(cx: ContextView, did: DefId)
    ensures
        adjustment(cx, did) is None ==> nested_text(cx, did) == Seq::<char>::empty(),
        adjustment(cx, did) is Some ==> nested_text(cx, did) == joined(
            in_order(adjustment(cx, did)->0.nested_items),
            "\n"@,
        ),
{
    if adjustment(cx, did) is None {
        lemma_in_order_len(cx.nested_items(did));
    }
}

/// What stands in front of the type of a field: its attributes, and on a line of
/// its own `pub` and its name.
pub open spec fn field_front(cx: ContextView, f: FieldView) -> Text {
    attrs_text(cx, f.did, ""@) + "\n                        pub "@ + name_of(cx, f.did) + ": "@
}

/// The type of a field is shown as it is written, whatever kind of type it is, if
/// the field is required and nothing says to box it.
pub proof fn law_plain_field_shows_its_type(cx: ContextView, f: FieldView)
    requires
        !(f.kind is Optional),
        !told_to_box(cx, f.did),
    ensures
        field_text(cx, f) == field_front(cx, f) + f.ty.code + ","@,
        ends_in(field_text(cx, f), ": "@ + f.ty.code + ","@),
{
    lemma_field_end(cx, f, f.ty.code);
}

/// The type of a field is boxed if and only if its adjustment says so.
pub proof fn law_boxed_field(cx: ContextView, f: FieldView)
    requires
        !(f.kind is Optional),
        told_to_box(cx, f.did),
    ensures
        field_text(cx, f) == field_front(cx, f) + ("::std::boxed::Box<"@ + f.ty.code + ">"@) + ","@,
        ends_in(field_text(cx, f), ": "@ + ("::std::boxed::Box<"@ + f.ty.code + ">"@) + ","@),
{
    lemma_field_end(cx, f, "::std::boxed::Box<"@ + f.ty.code + ">"@);
}

/// An optional field shows, within `Option`, what the same field would show if it
/// were required; for the rest the two are alike.
pub proof fn law_optional_field(cx: ContextView, required: FieldView, optional: FieldView, ty: Text)
    requires
        !(required.kind is Optional),
        optional.kind is Optional,
        required.did == optional.did,
        required.ty == optional.ty,
        field_text(cx, required) == field_front(cx, required) + ty + ","@,
    ensures
        field_text(cx, optional) == field_front(cx, required) + ("::std::option::Option<"@ + ty
            + ">"@) + ","@,
{
    let front = field_front(cx, required);
    let own = crate::render::field_ty_text(cx, required);
    assert(field_text(cx, required) == front + own + ","@);
    let whole = field_text(cx, required);
    let n = front.len() as int;
    let m = whole.len() - ","@.len();
    assert(own =~= (front + own + ","@).subrange(n, m));
    assert(ty =~= (front + ty + ","@).subrange(n, m));
}

proof fn lemma_field_end(cx: ContextView, f: FieldView, ty: Text)
    requires
        field_text(cx, f) == field_front(cx, f) + ty + ","@,
    ensures
        ends_in(field_text(cx, f), ": "@ + ty + ","@),
{
    let front = attrs_text(cx, f.did, ""@) + "\n                        pub "@ + name_of(cx, f.did);
    assert(field_text(cx, f) =~= front + (": "@ + ty + ","@));
}

/// A struct without fields shows none; one more field is shown on a line after
/// the others.
pub proof fn law_fields_in_order(cx: ContextView, s: MessageView, f: FieldView)
    ensures
        s.fields.len() == 0 ==> fields_text(cx, s) == Seq::<char>::empty(),
        fields_text(cx, MessageView { fields: s.fields.push(f), ..s }) == if s.fields.len() == 0 {
            field_text(cx, f)
        } else {
            fields_text(cx, s) + "\n"@ + field_text(cx, f)
        },
{
    let more = MessageView { fields: s.fields.push(f), ..s };
    let parts = Seq::new(s.fields.len(), |i: int| field_text(cx, s.fields[i]));
    assert(Seq::new(more.fields.len(), |i: int| field_text(cx, more.fields[i])) =~= parts.push(
        field_text(cx, f),
    ));
    lemma_joined_push(parts, field_text(cx, f), "\n"@);
}

/// Every field is shown in the struct that has it.
pub proof fn law_struct_shows_every_field(cx: ContextView, did: DefId, s: MessageView, i: int)
    requires
        0 <= i < s.fields.len(),
    ensures
        stands_in(field_text(cx, s.fields[i]), struct_text(cx, did, s)),
{
    let parts = Seq::new(s.fields.len(), |j: int| field_text(cx, s.fields[j]));
    law_joined_holds_every_part(parts, "\n"@, i);
    let (front, back) = choose|front: Text, back: Text|
        fields_text(cx, s) == #[trigger] ((front + parts[i]) + back);
    law_struct_frame(cx, did, s);
    let head = struct_head(s, name_of(cx, did));
    assert(struct_text(cx, did, s) =~= ((head + front) + field_text(cx, s.fields[i])) + (back
        + "\n            }"@));
}

/// What stands in front of the fields of a struct with this name.
pub open spec fn struct_head(s: MessageView, name: Text) -> Text {
    (if s.all_in_stack == Some(true) {
        "#[repr(C)]"@
    } else {
        ""@
    }) + "\n            #[derive(Clone, PartialEq)]\n            pub struct "@ + name
        + " {\n                "@
}

/// A struct is its fields between a head, which tells its name and whether it is
/// known to lie on the stack, and a closing brace.
pub proof fn law_struct_frame(cx: ContextView, did: DefId, s: MessageView)
    ensures
        struct_text(cx, did, s) == struct_head(s, name_of(cx, did)) + fields_text(cx, s)
            + "\n            }"@,
{
}

/// What a variant shows of its discriminant: the low 32 bits of it, as a number
/// with a sign; so all of it, if it fits.
pub open spec fn shown_discr(discr: i64, shown: int) -> bool {
    &&& i32::MIN <= shown <= i32::MAX
    &&& (discr - shown) % 0x1_0000_0000 == 0
}

/// A variant with a discriminant that fits 32 bits shows it unchanged; one with
/// any other shows the one number of 32 bits that differs from it by a multiple of
/// 2^32; one without shows none.
pub proof fn law_variant_shows_its_discriminant(cx: ContextView, v: EnumVariantView, shown: int)
    requires
        v.discr matches Some(discr) ==> shown_discr(discr, shown),
    ensures
        v.discr is Some ==> ends_in(variant_text(cx, v), "="@ + signed_decimal(shown) + ","@),
        v.discr is Some && i32::MIN <= v.discr->0 <= i32::MAX ==> ends_in(
            variant_text(cx, v),
            "="@ + signed_decimal(v.discr->0 as int) + ","@,
        ),
        variant_text(cx, v) == variant_front(cx, v) + (if v.discr is Some {
            "="@ + signed_decimal(shown)
        } else {
            Seq::empty()
        }) + ","@,
{
    lemma_held_types(v.fields);
    if let Some(discr) = v.discr {
        assert(shown == crate::render::discr_value(discr));
        assert(variant_text(cx, v) =~= variant_front(cx, v) + ("="@ + signed_decimal(shown) + ","@));
    }
}

/// The types that a variant holds, as they are written, with commas between them.
pub open spec fn held_types(fields: Seq<TyView>) -> Text
    decreases fields.len(),
{
    if fields.len() == 0 {
        Seq::empty()
    } else if fields.len() == 1 {
        fields[0].code
    } else {
        held_types(fields.drop_last()) + ","@ + fields.last().code
    }
}

/// What stands in front of the discriminant of a variant: its attributes, and on a
/// line of its own its name and, in brackets, the types that it holds.
pub open spec fn variant_front(cx: ContextView, v: EnumVariantView) -> Text {
    attrs_text(cx, v.did, "\n"@) + "\n                        "@ + name_of(cx, v.did) + " "@ + (
    if held_types(v.fields).len() == 0 {
        Seq::empty()
    } else {
        "("@ + held_types(v.fields) + ")"@
    }) + " "@
}

proof fn lemma_held_types(fields: Seq<TyView>)
    ensures
        held_types(fields) == joined(Seq::new(fields.len(), |i: int| fields[i].code), ","@),
    decreases fields.len(),
{
    let codes = Seq::new(fields.len(), |i: int| fields[i].code);
    if fields.len() > 1 {
        let less = fields.drop_last();
        lemma_held_types(less);
        assert(codes.drop_last() =~= Seq::new(less.len(), |i: int| less[i].code));
    }
}

/// A variant shows its attributes, its name and the types that it holds, in front
/// of its discriminant.
pub proof fn law_variant_shows_what_it_holds(cx: ContextView, v: EnumVariantView)
    ensures
        variant_front(cx, v).is_prefix_of(variant_text(cx, v)),
        v.discr is None ==> variant_text(cx, v) == variant_front(cx, v) + ","@,
{
    lemma_held_types(v.fields);
    if v.discr is None {
        assert(variant_text(cx, v) =~= variant_front(cx, v) + ","@);
    }
}

/// An enum without variants shows none; one more variant is shown on a line after
/// the others.
pub proof fn law_variants_in_order(cx: ContextView, e: EnumView, v: EnumVariantView)
    ensures
        e.variants.len() == 0 ==> variants_text(cx, e) == Seq::<char>::empty(),
        variants_text(cx, EnumView { variants: e.variants.push(v), ..e })
            == if e.variants.len() == 0 {
            variant_text(cx, v)
        } else {
            variants_text(cx, e) + "\n"@ + variant_text(cx, v)
        },
{
    let more = EnumView { variants: e.variants.push(v), ..e };
    let parts = Seq::new(e.variants.len(), |i: int| variant_text(cx, e.variants[i]));
    assert(Seq::new(more.variants.len(), |i: int| variant_text(cx, more.variants[i]))
        =~= parts.push(variant_text(cx, v)));
    lemma_joined_push(parts, variant_text(cx, v), "\n"@);
}

/// An enum is its variants between a head, which tells its name, and a closing
/// brace. Only an enum whose discriminants have a type can be copied, and only if
/// it has variants is that type given.
pub proof fn law_enum_frame(cx: ContextView, did: DefId, e: EnumView)
    ensures
        e.repr is None ==> plain_enum_text(cx, did, e) == enum_head(""@, name_of(cx, did))
            + variants_text(cx, e) + "\n            }\n            "@,
        e.repr is Some && e.variants.len() == 0 ==> plain_enum_text(cx, did, e) == enum_head(
            "# [derive (Copy)]"@,
            name_of(cx, did),
        ) + variants_text(cx, e) + "\n            }\n            "@,
        e.repr is Some && e.variants.len() > 0 ==> plain_enum_text(cx, did, e) == enum_head(
            "# [repr (i32)] # [derive (Copy)]"@,
            name_of(cx, did),
        ) + variants_text(cx, e) + "\n            }\n            "@,
{
}

/// What stands in front of the variants of an enum.
pub open spec fn enum_head(repr: Text, name: Text) -> Text {
    "\n            #[derive(Clone, PartialEq)]\n            "@ + repr + "\n            pub enum "@ + name
        + " {\n                "@
}

/// Whether the node of the enum is tagged to become a struct around an integer.
pub open spec fn tagged_as_new_type(cx: ContextView, did: DefId) -> bool {
    &&& did < cx.nodes.len()
    &&& cx.nodes[did as int].tags is Some
    &&& cx.nodes[did as int].tags->0.enum_mode == Some(EnumMode::NewType)
}

/// An enum becomes a struct around an integer if and only if it is tagged so.
pub proof fn law_enum_form(cx: ContextView, did: DefId, e: EnumView)
    ensures
        enum_text(cx, did, e) == if tagged_as_new_type(cx, did) {
            new_type_enum_text(cx, did, e)
        } else {
            plain_enum_text(cx, did, e)
        },
{
}

/// A variant of an enum that is a struct around an integer is a constant of that
/// name, which holds what of the discriminant fits 32 bits: all of it, if it does.
pub proof fn law_const_variant(cx: ContextView, v: EnumVariantView, shown: int)
    requires
        v.discr matches Some(discr) && shown_discr(discr, shown),
    ensures
        const_variant_text(cx, v) == "pub const "@ + name_of(cx, v.did) + ": Self = Self("@
            + signed_decimal(shown) + ");"@,
        i32::MIN <= v.discr->0 <= i32::MAX ==> shown == v.discr->0,
{
    assert(shown == crate::render::discr_value(v.discr->0));
}

/// The constants of an enum that is a struct around an integer follow each other
/// with nothing between them.
pub proof fn law_const_variants_in_order(cx: ContextView, e: EnumView, v: EnumVariantView)
    ensures
        e.variants.len() == 0 ==> const_variants_text(cx, e) == Seq::<char>::empty(),
        const_variants_text(cx, EnumView { variants: e.variants.push(v), ..e })
            == const_variants_text(cx, e) + const_variant_text(cx, v),
{
    reveal_strlit("");
    let more = EnumView { variants: e.variants.push(v), ..e };
    let parts = Seq::new(e.variants.len(), |i: int| const_variant_text(cx, e.variants[i]));
    assert(Seq::new(more.variants.len(), |i: int| const_variant_text(cx, more.variants[i]))
        =~= parts.push(const_variant_text(cx, v)));
    lemma_joined_push(parts, const_variant_text(cx, v), ""@);
    assert(joined(parts, ""@) + ""@ + const_variant_text(cx, v) =~= joined(parts, ""@)
        + const_variant_text(cx, v));
    if parts.len() == 0 {
        assert(joined(parts, ""@) + const_variant_text(cx, v) =~= const_variant_text(cx, v));
    }
}

/// An enum that is a struct around an integer shows its constants, and ways in
/// and out for the integer.
pub proof fn law_new_type_enum_frame(cx: ContextView, did: DefId, e: EnumView)
    ensures
        new_type_enum_text(cx, did, e) == (
        "#[derive(Clone, PartialEq, Copy)]\n            #[repr(transparent)]\n            pub struct "@
            + name_of(cx, did) + "("@ + "i32"@ + ");\n\n            impl "@ + name_of(cx, did)
            + " {\n                "@) + const_variants_text(cx, e) + (
        "\n\n                pub fn inner(&self) -> "@ + "i32"@
            + " {\n                    self.0\n                }\n            }\n\n            impl ::std::convert::From<"@
            + "i32"@ + "> for "@ + name_of(cx, did) + " {\n                fn from(value: "@
            + "i32"@
            + ") -> Self {\n                    Self(value)\n                }\n            }"@),
{
    let name = name_of(cx, did);
    let head =
        "#[derive(Clone, PartialEq, Copy)]\n            #[repr(transparent)]\n            pub struct "@
        + name + "("@ + "i32"@ + ");\n\n            impl "@ + name + " {\n                "@;
    let tail = "\n\n                pub fn inner(&self) -> "@ + "i32"@
        + " {\n                    self.0\n                }\n            }\n\n            impl ::std::convert::From<"@
        + "i32"@ + "> for "@ + name + " {\n                fn from(value: "@ + "i32"@
        + ") -> Self {\n                    Self(value)\n                }\n            }"@;
    assert(new_type_enum_text(cx, did, e) =~= head + const_variants_text(cx, e) + tail);
}

/// The sources of methods that are not empty, each on a line.
pub open spec fn method_lines(codes: Seq<Text>) -> Text
    decreases codes.len(),
{
    if codes.len() == 0 {
        Seq::empty()
    } else {
        let before = method_lines(codes.drop_last());
        if codes.last().len() == 0 {
            before
        } else if before.len() == 0 {
            codes.last()
        } else {
            before + "\n"@ + codes.last()
        }
    }
}

proof fn lemma_method_lines(codes: Seq<Text>)
    ensures
        method_lines(codes) == joined(codes.filter(|code: Text| code.len() > 0), "\n"@),
        method_lines(codes).len() == 0 <==> codes.filter(|code: Text| code.len() > 0).len() == 0,
    decreases codes.len(),
{
    let kept = |code: Text| code.len() > 0;
    reveal(Seq::filter);
    if codes.len() > 0 {
        let less = codes.drop_last();
        lemma_method_lines(less);
        if codes.last().len() > 0 {
            assert(codes.filter(kept) =~= less.filter(kept).push(codes.last()));
            lemma_joined_push(less.filter(kept), codes.last(), "\n"@);
        } else {
            assert(codes.filter(kept) =~= less.filter(kept));
        }
    }
}

/// A service is a trait of the methods that have a source, in order, one to a
/// line; it is no trait if and only if no method has one.
pub proof fn law_service_is_its_methods(name: Text, codes: Seq<Text>)
    ensures
        (forall|i: int| 0 <= i < codes.len() ==> (#[trigger] codes[i]).len() == 0) ==> service_text(
            name,
            codes,
        ) == Seq::<char>::empty(),
        (exists|i: int| 0 <= i < codes.len() && (#[trigger] codes[i]).len() > 0) ==> service_text(
            name,
            codes,
        ) == "\n            pub trait "@ + name + " {\n                "@ + method_lines(codes)
            + "\n            }\n            "@,
{
    let kept = |code: Text| code.len() > 0;
    lemma_method_lines(codes);
    lemma_no_lines(codes);
}

proof fn lemma_no_lines(codes: Seq<Text>)
    ensures
        method_lines(codes).len() == 0 <==> (forall|i: int|
            0 <= i < codes.len() ==> (#[trigger] codes[i]).len() == 0),
    decreases codes.len(),
{
    if codes.len() > 0 {
        let less = codes.drop_last();
        lemma_no_lines(less);
        if method_lines(less).len() == 0 && codes.last().len() == 0 {
            assert forall|i: int| 0 <= i < codes.len() implies (#[trigger] codes[i]).len() == 0 by {
                if i < less.len() {
                    assert(less[i] == codes[i]);
                }
            }
        }
        if forall|i: int| 0 <= i < codes.len() ==> (#[trigger] codes[i]).len() == 0 {
            assert forall|i: int| 0 <= i < less.len() implies (#[trigger] less[i]).len() == 0 by {
                assert(less[i] == codes[i]);
            }
            assert(codes[codes.len() - 1].len() == 0);
        }
    }
}

/// Every method source that is not empty stands in the trait, behind the name of
/// the service, and a service with such a method is written.
pub proof fn law_service_shows_every_method(name: Text, codes: Seq<Text>, i: int)
    requires
        0 <= i < codes.len(),
        codes[i].len() > 0,
    ensures
        service_text(name, codes).len() > 0,
        exists|front: Text, back: Text|
            service_text(name, codes) == #[trigger] (("\n            pub trait "@ + name + front
                + codes[i]) + back),
{
    let kept = |code: Text| code.len() > 0;
    law_service_is_its_methods(name, codes);
    lemma_method_lines(codes);
    codes.lemma_filter_contains(kept, i);
    let parts = codes.filter(kept);
    let j = parts.index_of(codes[i]);
    law_joined_holds_every_part(parts, "\n"@, j);
    let (front, back) = choose|front: Text, back: Text|
        joined(parts, "\n"@) == #[trigger] ((front + parts[j]) + back);
    let mid = " {\n                "@ + front;
    assert(service_text(name, codes) =~= ("\n            pub trait "@ + name + mid + codes[i]) + (
    back + "\n            }\n            "@));
}

/// What a backend leaves empty makes no difference to a service.
pub proof fn law_empty_methods_do_not_show(name: Text, a: Seq<Text>, b: Seq<Text>)
    ensures
        service_text(name, a.push(Seq::empty()) + b) == service_text(name, a + b),
{
    let kept = |code: Text| code.len() > 0;
    let empty: Text = Seq::empty();
    lemma_filter_parts(a.push(empty), b, kept);
    lemma_filter_parts(a, b, kept);
    assert(a.push(empty).filter(kept) == a.filter(kept)) by {
        reveal(Seq::filter);
        assert(a.push(empty).drop_last() =~= a);
    }
}

proof fn lemma_filter_parts(a: Seq<Text>, b: Seq<Text>, kept: spec_fn(Text) -> bool)
    ensures
        (a + b).filter(kept) == a.filter(kept) + b.filter(kept),
    decreases b.len(),
{
    reveal(Seq::filter);
    if b.len() == 0 {
        assert(a + b =~= a);
        assert(a.filter(kept) + b.filter(kept) =~= a.filter(kept));
    } else {
        let less = b.drop_last();
        lemma_filter_parts(a, less, kept);
        assert((a + b).drop_last() =~= a + less);
        assert((a + b).last() == b.last());
        assert((a + b).filter(kept) =~= a.filter(kept) + b.filter(kept));
    }
}

/// A new type is a struct around the type as it is written, which can be made of
/// the type and stands for it.
pub proof fn law_new_type_frame(cx: ContextView, did: DefId, t: NewTypeView)
    ensures
        new_type_text(cx, did, t) == (
        "\n            #[derive(Clone, PartialEq)]\n            pub struct "@ + name_of(cx, did)
            + "(pub "@ + t.ty.code + ");\n\n            impl ::std::ops::Deref for "@) + (name_of(
            cx,
            did,
        ) + " {\n                type Target = "@ + t.ty.code
            + ";\n\n                fn deref(&self) -> &Self::Target {\n                    &self.0\n                }\n            }\n\n            impl From<"@)
            + (t.ty.code + "> for "@ + name_of(cx, did) + " {\n                fn from(v: "@
            + t.ty.code
            + ") -> Self {\n                    Self(v)\n                }\n            }\n            "@),
{
    let name = name_of(cx, did);
    let a = "\n            #[derive(Clone, PartialEq)]\n            pub struct "@ + name + "(pub "@
        + t.ty.code + ");\n\n            impl ::std::ops::Deref for "@;
    let b = name + " {\n                type Target = "@ + t.ty.code
        + ";\n\n                fn deref(&self) -> &Self::Target {\n                    &self.0\n                }\n            }\n\n            impl From<"@;
    let c = t.ty.code + "> for "@ + name + " {\n                fn from(v: "@ + t.ty.code
        + ") -> Self {\n                    Self(v)\n                }\n            }\n            "@;
    assert(new_type_text(cx, did, t) =~= a + b + c);
}

/// Whether a row of the table of constants is for this name, literal and type.
pub open spec fn row_for(row: LitDefView, name: Text, lit: Text, ty: Text) -> bool {
    row.name == name && row.lit == lit && row.ty == ty
}

/// A constant is defined as the first row of the table says that is for its name,
/// its literal and its type; without such a row it has no definition.
pub proof fn law_constant(cx: ContextView, did: DefId, c: ConstView, i: int)
    ensures
        ({
            let node = cx.nodes[did as int];
            &&& (0 <= i < cx.lit_defs.len() && row_for(
                cx.lit_defs[i],
                node.rust_name,
                c.lit,
                node.ty_code,
            ) && forall|j: int|
                0 <= j < i ==> !row_for(
                    #[trigger] cx.lit_defs[j],
                    node.rust_name,
                    c.lit,
                    node.ty_code,
                )) ==> const_text(cx, did, c) == Some(cx.lit_defs[i].def)
            &&& (forall|j: int|
                0 <= j < cx.lit_defs.len() ==> !row_for(
                    #[trigger] cx.lit_defs[j],
                    node.rust_name,
                    c.lit,
                    node.ty_code,
                )) ==> const_text(cx, did, c) is None
        }),
{
    let rows = cx.lit_defs;
    let name = cx.nodes[did as int].rust_name;
    let ty = cx.nodes[did as int].ty_code;
    assert forall|j: int| 0 <= j < rows.len() implies crate::context::lit_row(
        rows,
        j,
        name,
        c.lit,
        ty,
    ) == row_for(#[trigger] rows[j], name, c.lit, ty) by {}
    if exists|k: int| crate::context::first_lit_row(rows, k, name, c.lit, ty) {
        let k = choose|k: int| crate::context::first_lit_row(rows, k, name, c.lit, ty);
        assert(row_for(rows[k], name, c.lit, ty));
        if 0 <= i < rows.len() && row_for(rows[i], name, c.lit, ty) && forall|j: int|
            0 <= j < i ==> !row_for(#[trigger] rows[j], name, c.lit, ty) {
            assert(crate::context::lit_row(rows, i, name, c.lit, ty));
            assert(k == i);
        }
    } else if 0 <= i < rows.len() && row_for(rows[i], name, c.lit, ty) && forall|j: int|
        0 <= j < i ==> !row_for(#[trigger] rows[j], name, c.lit, ty) {
        assert forall|j: int| 0 <= j < i implies !crate::context::lit_row(
            rows,
            j,
            name,
            c.lit,
            ty,
        ) by {
            assert(!row_for(rows[j], name, c.lit, ty));
        }
        assert(crate::context::first_lit_row(rows, i, name, c.lit, ty));
    }
}

/// A reference names the whole path of the item, from the root.
pub proof fn law_reference(cx: ContextView, did: DefId)
    ensures
        re_pub_text(cx, did) == "pub use ::"@ + joined(cx.nodes[did as int].item_path, "::"@)
            + ";"@,
{
}

/// A file is its head and its items, with the warnings switched off in between.
pub proof fn law_file_frame(doc: Text, stream: Text)
    ensures
        file_text(doc, stream) == (doc
            + "\n        #![allow(warnings, clippy::all)]\n                "@) + (stream
            + "\n        "@),
{
    assert(file_text(doc, stream) =~= (doc
        + "\n        #![allow(warnings, clippy::all)]\n                "@) + (stream
        + "\n        "@));
}

/// A struct can be written if it and all its fields are known.
pub proof fn law_struct_can_be_written(cx: ContextView, did: DefId, s: MessageView)
    ensures
        struct_ok(cx, did, s) <==> did < cx.nodes.len() && forall|i: int|
            0 <= i < s.fields.len() ==> (#[trigger] s.fields[i]).did < cx.nodes.len(),
{
    if struct_ok(cx, did, s) {
        assert forall|i: int| 0 <= i < s.fields.len() implies (#[trigger] s.fields[i]).did
            < cx.nodes.len() by {
            assert(cx.knows(s.fields[i].did));
        }
    }
}

/// An enum that has tags can be written if it and all its variants are known, and
/// each discriminant has a type: where the enum becomes a struct around an integer
/// each variant must have one, elsewhere those that there are must fit the
/// machine's integers.
pub proof fn law_enum_can_be_written(cx: ContextView, did: DefId, e: EnumView)
    ensures
        enum_ok(cx, did, e) <==> {
            &&& did < cx.nodes.len()
            &&& cx.nodes[did as int].tags is Some
            &&& tagged_as_new_type(cx, did) ==> e.repr is Some
            &&& forall|i: int|
                0 <= i < e.variants.len() ==> {
                    &&& (#[trigger] e.variants[i]).did < cx.nodes.len()
                    &&& tagged_as_new_type(cx, did) ==> e.variants[i].discr is Some
                    &&& !tagged_as_new_type(cx, did) && e.variants[i].discr is Some ==> e.repr is Some
                        && isize::MIN <= e.variants[i].discr->0 <= isize::MAX
                }
        },
{
    if enum_ok(cx, did, e) {
        assert forall|i: int| 0 <= i < e.variants.len() implies {
            &&& (#[trigger] e.variants[i]).did < cx.nodes.len()
            &&& tagged_as_new_type(cx, did) ==> e.variants[i].discr is Some
            &&& !tagged_as_new_type(cx, did) && e.variants[i].discr is Some ==> e.repr is Some
                && isize::MIN <= e.variants[i].discr->0 <= isize::MAX
        } by {
            assert(cx.knows(e.variants[i].did));
        }
    }
}

} // verus!
