//! What the instrumentation needs to know of a function beyond its blocks:
//! what kind of item it is, and where its signature and body stand in the
//! source.

use crate::source_map::{file_index_at, SourceMap};
use crate::span::Span;
use vstd::prelude::*;

verus! {

/// The kind of item that a body belongs to.
#[derive(Clone, Copy, Debug, PartialEq, Eq, Structural)]
pub enum DefKind {
    Fn,
    AssocFn,
    Closure,
    Const,
    AssocConst,
    Static,
    AnonConst,
}

impl DefKind {
    /// Whether the item is executed at run time like a function.
    #[verifier::allow_in_spec]
    pub fn is_fn_like(self) -> bool
        returns
            self is Fn || self is AssocFn || self is Closure,
    {
        match self {
            DefKind::Fn | DefKind::AssocFn | DefKind::Closure => true,
            _ => false,
        }
    }
}

/// What decides whether an item is instrumented at all.
#[derive(Clone, Copy, Debug, PartialEq, Eq, Structural)]
pub struct ItemInfo {
    pub def_kind: DefKind,
    /// The item is a method of an implementation that the compiler derived.
    pub automatically_derived: bool,
    /// The item carries the attribute that switches coverage off.
    pub no_coverage: bool,
}

/// Whether an item is instrumented: only functions, methods and closures
/// are, and among them none that was derived automatically or that opted out.
pub fn is_eligible_for_coverage(item: &ItemInfo) -> (r: bool)
    ensures
        r == (item.def_kind.is_fn_like() && !item.automatically_derived && !item.no_coverage),
{
    if !item.def_kind.is_fn_like() {
        return false;
    }
    if item.automatically_derived {
        return false;
    }
    if item.no_coverage {
        return false;
    }
    true
}

/// The signature of a function.
#[derive(Clone, Copy, Debug, PartialEq, Eq, Structural)]
pub struct FnSig {
    pub span: Span,
    pub is_async: bool,
}

/// A function as written in the source.
#[derive(Clone, Copy, Debug, PartialEq, Eq, Structural)]
pub struct FnItem {
    /// The signature; a closure has none.
    pub fn_sig: Option<FnSig>,
    /// The span of the body.
    pub body_span: Span,
    /// Where the body was written before any macro expansion.
    pub body_callsite: Span,
    pub is_closure_or_coroutine: bool,
    /// A hash of the function's source, stable across compilations.
    pub source_hash: u64,
}

/// What the instrumentation takes from the source of a function.
#[derive(Clone, Copy, Debug, PartialEq, Eq, Structural)]
pub struct ExtractedHirInfo {
    pub function_source_hash: u64,
    pub is_async_fn: bool,
    pub fn_sig_span: Span,
    pub body_span: Span,
}

/// The span of the body of `item`: for a closure, the place where it was
/// written before expansion.
#[verifier::allow_in_spec]
pub fn get_body_span(item: &FnItem) -> Span
    returns
        (if item.is_closure_or_coroutine {
            item.body_callsite
        } else {
            item.body_span
        }),
{
    if item.is_closure_or_coroutine {
        item.body_callsite
    } else {
        item.body_span
    }
}

/// Whether the signature span `sig` can be reported with the body: it has
/// the context of the body, ends before the body begins, and lies in the
/// same file.
pub open spec fn signature_usable(source_map: SourceMap, sig: Span, body_span: Span) -> bool {
    sig.eq_ctxt(body_span) && sig.hi <= body_span.lo && file_index_at(
        source_map.files@,
        sig.lo as int,
    ) == file_index_at(source_map.files@, body_span.lo as int)
}

/// The span that stands for the signature of `item`: the signature up to the
/// start of the body where that can be reported with the body, and otherwise
/// the empty span at the start of the body.
pub open spec fn signature_span(source_map: SourceMap, item: FnItem) -> Span {
    let body_span = get_body_span(&item);
    match item.fn_sig {
        Some(sig) => if signature_usable(source_map, sig.span, body_span) {
            sig.span.with_hi(body_span.lo)
        } else {
            body_span.shrink_to_lo()
        },
        None => body_span.shrink_to_lo(),
    }
}

/// What the instrumentation takes from the source of `item`.
pub open spec fn extracted_info(source_map: SourceMap, item: FnItem) -> ExtractedHirInfo {
    ExtractedHirInfo {
        function_source_hash: item.source_hash,
        is_async_fn: item.fn_sig matches Some(sig) && sig.is_async,
        fn_sig_span: signature_span(source_map, item),
        body_span: get_body_span(&item),
    }
}

/// Collects what the instrumentation needs of `item`.
pub fn extract_hir_info(source_map: &SourceMap, item: &FnItem) -> (info: ExtractedHirInfo)
    ensures
        info == extracted_info(*source_map, *item),
{
    let is_async_fn = match item.fn_sig {
        Some(sig) => sig.is_async,
        None => false,
    };
    let body_span = get_body_span(item);
    let fn_sig_span = match item.fn_sig {
        Some(sig) => {
            let same_file = same_index(
                source_map.lookup_source_file_idx(sig.span.lo),
                source_map.lookup_source_file_idx(body_span.lo),
            );
            if sig.span.eq_ctxt(body_span) && sig.span.hi <= body_span.lo && same_file {
                sig.span.with_hi(body_span.lo)
            } else {
                body_span.shrink_to_lo()
            }
        },
        None => body_span.shrink_to_lo(),
    };
    ExtractedHirInfo {
        function_source_hash: item.source_hash,
        is_async_fn,
        fn_sig_span,
        body_span,
    }
}

fn same_index(a: Option<usize>, b: Option<usize>) -> (r: bool)
    ensures
        r == (a == b),
{
    match (a, b) {
        (Some(x), Some(y)) => x == y,
        (None, None) => true,
        _ => false,
    }
}

} // verus!
