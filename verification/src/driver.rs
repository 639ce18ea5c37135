//! Entry points that decide whether a function can be converted and then convert it.
use crate::check::{check_blocks_unique, check_layout_convertible, check_rpo_ready};
use crate::clif::ClifFunction;
use crate::cranelift::{extracted, readable};
use cranelift_codegen::ir::Function;
use crate::convert::{ConversionCtx, ConvertError};
use crate::function::{
    all_placed, convert_function, convert_function_w_rpo, defs_in_order, entry_set, function_converted,
    layout_convertible, order_ready,
};
use crate::ir::Context;
use crate::names::{identifier_try_new, is_identifier};
use crate::ops::FuncOp;
use vstd::prelude::*;

verus! {

/// What both conversions need before the name of `f` is read as an identifier: `f` is
/// well formed, its signature has only `i32` types, and its name can lose its first
/// character.
pub open spec fn head_supported(f: &ClifFunction) -> bool {
    &&& f.wf()
    &&& f.signature_i32()
    &&& f.name_droppable()
}

/// What the conversion of `f` in layout order needs: `f` is well formed, its signature
/// has only `i32` types, its name can lose its first character, its layout lists each
/// block and instruction once, the blocks after the entry block have only `i32`
/// parameters, and every instruction of the layout can be converted on demand.
pub open spec fn layout_supported(f: &ClifFunction) -> bool {
    &&& f.wf()
    &&& f.signature_i32()
    &&& f.name_droppable()
    &&& f.layout_unique()
    &&& forall|k: int| 1 <= k < f.layout@.len() ==> f.block_params_i32(#[trigger] f.layout@[k])
    &&& layout_convertible(f, Set::empty(), entry_set(f))
}

/// What the conversion of `f` in reverse post-order needs: `f` is well formed, its
/// signature has only `i32` types, its name can lose its first character, the reverse
/// post-order lists each block and instruction once, the blocks after the entry block
/// have only `i32` parameters, and each instruction of the walk is an addition or a
/// return whose arguments are defined earlier in the walk.
pub open spec fn rpo_supported(f: &ClifFunction) -> bool {
    &&& f.wf()
    &&& f.signature_i32()
    &&& f.name_droppable()
    &&& f.blocks_unique(f.rpo@)
    &&& forall|k: int| 1 <= k < f.rpo@.len() ==> f.block_params_i32(#[trigger] f.rpo@[k])
    &&& order_ready(f, f.rpo@, Set::empty(), entry_set(f))
}

/// The result `r` of converting `f` with the blocks walked in `order`, from `old_ctx` and
/// `old_cctx` to `new_ctx` and `new_cctx`, given that `supported` says whether `f` can be
/// converted that way.  As the signature is read before the name and the blocks after
/// it: `Unsupported` when [`head_supported`] fails; otherwise `InvalidIdentifier` when
/// the name without its first character is not an identifier; otherwise `Unsupported`
/// when `f` cannot be converted that way; nothing changes on any of these failures.
/// Otherwise the converted function.
pub open spec fn conversion_result(
    old_ctx: &Context,
    new_ctx: &Context,
    old_cctx: &ConversionCtx,
    new_cctx: &ConversionCtx,
    f: &ClifFunction,
    order: Seq<u32>,
    supported: bool,
    r: Result<FuncOp, ConvertError>,
) -> bool {
    &&& r is Err ==> *new_ctx == *old_ctx && *new_cctx == *old_cctx
    &&& !head_supported(f) ==> r is Err && r->Err_0 is Unsupported
    &&& head_supported(f) && !is_identifier(f.name@.skip(1)) ==> r is Err && (r->Err_0 matches ConvertError::InvalidIdentifier(n)
        && n@ == f.name@.skip(1))
    &&& head_supported(f) && is_identifier(f.name@.skip(1)) && !supported ==> r is Err && r->Err_0 is Unsupported
    &&& supported && is_identifier(f.name@.skip(1)) ==> r is Ok
    &&& r matches Ok(fop) ==> supported && function_converted(
        old_ctx,
        new_ctx,
        old_cctx,
        new_cctx,
        f,
        order,
        fop.op,
    )
}

/// Whether `f` can be converted in layout order ([`layout_supported`]).
pub fn check_layout_supported(f: &ClifFunction) -> (b: bool)
    ensures
        b == layout_supported(f),
{
    f.check_wf() && f.check_signature_i32() && f.check_name_droppable() && check_blocks_unique(f, &f.layout)
        && f.check_later_blocks_i32(&f.layout) && check_layout_convertible(f)
}

/// Whether `f` can be converted in reverse post-order ([`rpo_supported`]).
pub fn check_rpo_supported(f: &ClifFunction) -> (b: bool)
    ensures
        b == rpo_supported(f),
{
    f.check_wf() && f.check_signature_i32() && f.check_name_droppable() && check_blocks_unique(f, &f.rpo)
        && f.check_later_blocks_i32(&f.rpo) && check_rpo_ready(f)
}

/// Fails with `InvalidIdentifier` when the name of `f` without its first character is not
/// an identifier.
fn check_name(f: &ClifFunction) -> (r: Result<(), ConvertError>)
    requires
        f.name_droppable(),
    ensures
        r is Ok <==> is_identifier(f.name@.skip(1)),
        r matches Err(e) ==> e matches ConvertError::InvalidIdentifier(n) && n@ == f.name@.skip(1),
{
    let name_str = f.name.as_str();
    let func_name = String::from_str(name_str.substring_char(1, name_str.unicode_len()));
    proof {
        assert(func_name@ =~= f.name@.skip(1));
    }
    match identifier_try_new(&func_name) {
        Ok(_) => Ok(()),
        Err(_) => Err(ConvertError::InvalidIdentifier(func_name)),
    }
}

/// Converts `f` with a fresh conversion context as [`convert_function`] does, when it
/// can be converted in layout order; otherwise fails with `Unsupported`.  Where the
/// layout defines every argument before its use, or every argument is defined in the
/// layout, everything created is placed.
pub fn try_convert_function(ctx: &mut Context, cctx: &mut ConversionCtx, f: &ClifFunction) -> (r: Result<
    FuncOp,
    ConvertError,
>)
    requires
        old(ctx).wf(),
        old(ctx).regions@.len() < usize::MAX,
        old(cctx).is_fresh(),
    ensures
        conversion_result(old(ctx), final(ctx), old(cctx), final(cctx), f, f.layout@, layout_supported(f), r),
        r matches Ok(fop) ==> (order_ready(f, f.layout@, Set::empty(), entry_set(f)) ==> all_placed(
            old(ctx),
            final(ctx),
            fop.op,
        )),
        r matches Ok(fop) ==> (defs_in_order(f, f.layout@) ==> all_placed(old(ctx), final(ctx), fop.op)),
{
    if !(f.check_wf() && f.check_signature_i32() && f.check_name_droppable()) {
        return Err(ConvertError::Unsupported);
    }
    check_name(f)?;
    if !check_layout_supported(f) {
        return Err(ConvertError::Unsupported);
    }
    proof {
        cctx.lemma_fresh_inv(ctx, f);
        assert(cctx.cached_blocks().union(entry_set(f)) =~= entry_set(f));
        assert(cctx.cached_insts() =~= Set::<u32>::empty());
    }
    convert_function(ctx, cctx, f)
}

/// Converts `f` with a fresh conversion context as [`convert_function_w_rpo`] does, when
/// it can be converted in reverse post-order; otherwise fails with `Unsupported`.
pub fn try_convert_function_w_rpo(ctx: &mut Context, cctx: &mut ConversionCtx, f: &ClifFunction) -> (r: Result<
    FuncOp,
    ConvertError,
>)
    requires
        old(ctx).wf(),
        old(ctx).regions@.len() < usize::MAX,
        old(cctx).is_fresh(),
    ensures
        conversion_result(old(ctx), final(ctx), old(cctx), final(cctx), f, f.rpo@, rpo_supported(f), r),
        r matches Ok(fop) ==> all_placed(old(ctx), final(ctx), fop.op),
{
    if !(f.check_wf() && f.check_signature_i32() && f.check_name_droppable()) {
        return Err(ConvertError::Unsupported);
    }
    check_name(f)?;
    if !check_rpo_supported(f) {
        return Err(ConvertError::Unsupported);
    }
    proof {
        cctx.lemma_fresh_inv(ctx, f);
        assert(cctx.cached_blocks().union(entry_set(f)) =~= entry_set(f));
        assert(cctx.cached_insts() =~= Set::<u32>::empty());
    }
    convert_function_w_rpo(ctx, cctx, f)
}


/// Reads the Cranelift function `func` and converts it in layout order, as
/// [`try_convert_function`] does with what was read.  A function that cannot be read
/// ([`readable`]) is `Unsupported`.
pub fn convert_cranelift_function(ctx: &mut Context, cctx: &mut ConversionCtx, func: &Function) -> (r: Result<
    FuncOp,
    ConvertError,
>)
    requires
        old(ctx).wf(),
        old(ctx).regions@.len() < usize::MAX,
        old(cctx).is_fresh(),
    ensures
        !readable(*func) ==> r is Err && r->Err_0 is Unsupported && *final(ctx) == *old(ctx) && *final(cctx)
            == *old(cctx),
        readable(*func) ==> exists|f: ClifFunction|
            #[trigger] extracted(*func, f) && conversion_result(
                old(ctx),
                final(ctx),
                old(cctx),
                final(cctx),
                &f,
                f.layout@,
                layout_supported(&f),
                r,
            ) && (r matches Ok(fop) ==> (order_ready(&f, f.layout@, Set::empty(), entry_set(&f)) ==> all_placed(
                old(ctx),
                final(ctx),
                fop.op,
            ))),
{
    match ClifFunction::from_cranelift(func) {
        None => Err(ConvertError::Unsupported),
        Some(f) => {
            let r = try_convert_function(ctx, cctx, &f);
            proof {
                assert(extracted(*func, f));
            }
            r
        },
    }
}

/// Reads the Cranelift function `func` and converts it in reverse post-order, as
/// [`try_convert_function_w_rpo`] does with what was read.  A function that cannot be
/// read ([`readable`]) is `Unsupported`.
pub fn convert_cranelift_function_w_rpo(ctx: &mut Context, cctx: &mut ConversionCtx, func: &Function) -> (r:
    Result<FuncOp, ConvertError>)
    requires
        old(ctx).wf(),
        old(ctx).regions@.len() < usize::MAX,
        old(cctx).is_fresh(),
    ensures
        !readable(*func) ==> r is Err && r->Err_0 is Unsupported && *final(ctx) == *old(ctx) && *final(cctx)
            == *old(cctx),
        readable(*func) ==> exists|f: ClifFunction|
            #[trigger] extracted(*func, f) && conversion_result(
                old(ctx),
                final(ctx),
                old(cctx),
                final(cctx),
                &f,
                f.rpo@,
                rpo_supported(&f),
                r,
            ),
        r matches Ok(fop) ==> all_placed(old(ctx), final(ctx), fop.op),
{
    match ClifFunction::from_cranelift(func) {
        None => Err(ConvertError::Unsupported),
        Some(f) => {
            let r = try_convert_function_w_rpo(ctx, cctx, &f);
            proof {
                assert(extracted(*func, f));
            }
            r
        },
    }
}

} // verus!
