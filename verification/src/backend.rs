//! What a target format contributes to the generated code.
use crate::context::{Context, ContextView};
use crate::rir::{
    DefId, Enum, EnumView, Message, MessageView, Method, MethodView, NewType, NewTypeView, Service,
    ServiceView,
};
use crate::text::Text;
use vstd::prelude::*;

verus! {

/// The part of generation that depends on the format of the data, which the
/// formats implement.
///
/// Each hook comes with a relation that says what it may do. Nothing is asked of
/// a hook: it may rewrite the whole stream, and need not do the same every time.
/// A format that does less can say so by its relation.
///
/// A hook is told which item is being written. While [`write_item`] writes an
/// item, that is the item itself, and inside a module the item of the module that
/// it has come to; when a single definition is written by itself, there is none.
///
/// [`write_item`]: crate::codegen::Codegen::write_item
pub trait CodegenBackend: Sized {
    /// What a backend consists of besides what it knows of the program.
    type Rest;

    /// All of the backend but what it knows of the program.
    spec fn rest(&self) -> Self::Rest;

    /// What the backend knows of the program.
    spec fn context(&self) -> ContextView;

    /// What the backend knows of the program.
    fn cx(&self) -> (cx: &Context)
        ensures
            cx@ == self.context(),
    ;

    /// What the backend knows of the program, to be changed; the rest stays.
    fn cx_mut(&mut self) -> (cx: &mut Context)
        ensures
            cx@ == old(self).context(),
            final(self).context() == final(cx)@,
            final(self).rest() == old(self).rest(),
    ;

    /// What may become of the stream when the hook for a struct is called.
    open spec fn struct_impl(
        &self,
        cur_item: Option<DefId>,
        def_id: DefId,
        s: MessageView,
        before: Text,
        after: Text,
    ) -> bool {
        true
    }

    /// Called when a struct has been written.
    fn codegen_struct_impl(
        &self,
        cur_item: Option<DefId>,
        def_id: DefId,
        stream: &mut String,
        s: &Message,
    )
        ensures
            self.struct_impl(cur_item, def_id, s@, old(stream)@, final(stream)@),
    ;

    /// What may become of the stream when the hook for an enum is called.
    open spec fn enum_impl(
        &self,
        cur_item: Option<DefId>,
        def_id: DefId,
        e: EnumView,
        before: Text,
        after: Text,
    ) -> bool {
        true
    }

    /// Called when an enum has been written.
    fn codegen_enum_impl(
        &self,
        cur_item: Option<DefId>,
        def_id: DefId,
        stream: &mut String,
        e: &Enum,
    )
        ensures
            self.enum_impl(cur_item, def_id, e@, old(stream)@, final(stream)@),
    ;

    /// What may become of the stream when the hook for a service is called.
    open spec fn service_impl(
        &self,
        cur_item: Option<DefId>,
        def_id: DefId,
        s: ServiceView,
        before: Text,
        after: Text,
    ) -> bool {
        true
    }

    /// Called when the trait of a service has been written.
    fn codegen_service_impl(
        &self,
        cur_item: Option<DefId>,
        def_id: DefId,
        stream: &mut String,
        s: &Service,
    )
        ensures
            self.service_impl(cur_item, def_id, s@, old(stream)@, final(stream)@),
    ;

    /// What may be the source of a method.
    open spec fn service_method(
        &self,
        cur_item: Option<DefId>,
        service_def_id: DefId,
        method: MethodView,
        code: Text,
    ) -> bool {
        true
    }

    /// The source of a method in the trait of a service; empty if it has none.
    fn codegen_service_method(
        &self,
        cur_item: Option<DefId>,
        service_def_id: DefId,
        method: &Method,
    ) -> (code: String)
        ensures
            self.service_method(cur_item, service_def_id, method@, code@),
    ;

    /// What may become of the stream when the hook for a new type is called.
    open spec fn newtype_impl(
        &self,
        cur_item: Option<DefId>,
        def_id: DefId,
        t: NewTypeView,
        before: Text,
        after: Text,
    ) -> bool {
        true
    }

    /// Called when a new type has been written.
    fn codegen_newtype_impl(
        &self,
        cur_item: Option<DefId>,
        def_id: DefId,
        stream: &mut String,
        t: &NewType,
    )
        ensures
            self.newtype_impl(cur_item, def_id, t@, old(stream)@, final(stream)@),
    ;
}

} // verus!
