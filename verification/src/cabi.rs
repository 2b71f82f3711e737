//! The C malloc family: C arguments to allocator calls, and results to a pointer or an
//! error code. C `free` carries no layout and accepts null.

use vstd::arithmetic::power2::is_pow2;
use vstd::prelude::*;

use crate::allocator::{asked_for, left_alone, refused, stops, Allocator};
use crate::heap::error::Abort;
use crate::heap::thread::{gains_free, lemma_none_lost_refl, none_lost, ThreadHeaps};
use crate::layout::{is_power_of_two, round_up, valid_layout, Layout};
use crate::process::{drawn, peers_kept, removed, same_held, spared, zeroed, Process};

verus! {

/// Alignment of `max_align_t` on Linux x86-64.
pub const MAX_ALIGN: usize = 16;

/// Page size that `valloc` and `pvalloc` align to.
pub const PAGE: usize = 4096;

/// Size of a pointer, the least alignment that `posix_memalign` takes.
pub const POINTER: usize = 8;

/// What a failing entry point reports.
#[derive(Clone, Copy, Debug, PartialEq, Eq, Structural)]
pub enum Errno {
    /// `EINVAL`
    Invalid,
    /// `ENOMEM`
    NoMemory,
}

/// Sixteen, a page, and a pointer's size are powers of two.
proof fn lemma_constants()
    ensures
        is_pow2(16),
        is_pow2(4096),
        is_pow2(8),
        MAX_ALIGN as int == 16,
        PAGE as int == 4096,
{
    reveal_with_fuel(is_pow2, 14);
}

/// The thread and process are good after the call, and other threads keep their heaps.
pub open spec fn sound(
    before: Process,
    after: Process,
    was: ThreadHeaps,
    now: ThreadHeaps,
) -> bool {
    &&& after.wf()
    &&& now.wf(after.heaps)
    &&& peers_kept(before.heaps, after.heaps, was.bound())
    &&& gains_free(before.heaps, was.bound(), now.bound())
    &&& none_lost(before, was, after, now)
}

/// What asking for `size` bytes aligned to `align` gives: a new block, or a report that
/// there is no memory with nothing changed hands. Blocks that are held keep their bytes. An
/// impossible size is no memory. Only a broken claim on the thread's heap aborts.
pub open spec fn given(
    before: Process,
    after: Process,
    was: ThreadHeaps,
    now: ThreadHeaps,
    out: Result<Result<usize, Errno>, Abort>,
    size: int,
    align: int,
) -> bool {
    let layout = Layout { size: size as usize, align: align as usize };
    if !valid_layout(size, align) {
        out == Ok::<Result<usize, Errno>, Abort>(Err(Errno::NoMemory)) && after == before
    } else {
        &&& out is Err == stops(before, was, layout)
        &&& left_alone(before, after, layout)
        &&& drawn(before, after)
        &&& match out {
            Err(_) => same_held(before, after),
            Ok(Err(errno)) => errno == Errno::NoMemory && same_held(before, after) && refused(
                before,
                was,
                now,
                layout,
            ) && asked_for(before, after, now, layout),
            Ok(Ok(ptr)) => Allocator::serves_layout(before, after, ptr, layout)
                && Allocator::owned_for(now, after, ptr, layout),
        }
    }
}

/// A block of `size` bytes aligned to `align`, a power of two.
fn aligned(
    allocator: &Allocator,
    align: usize,
    size: usize,
    thread: &mut ThreadHeaps,
    process: &mut Process,
) -> (out: Result<Result<usize, Errno>, Abort>)
    requires
        old(thread).wf(old(process).heaps),
        old(process).wf(),
    ensures
        sound(*old(process), *final(process), *old(thread), *final(thread)),
        given(
            *old(process),
            *final(process),
            *old(thread),
            *final(thread),
            out,
            size as int,
            align as int,
        ),
{
    proof {
        process.heaps.lemma_grown_refl();
        lemma_none_lost_refl(*process, *thread);
    }
    match Layout::from_size_align(size, align) {
        None => Ok(Err(Errno::NoMemory)),
        Some(layout) => match allocator.allocate(layout, thread, process) {
            Err(abort) => Err(abort),
            Ok(None) => Ok(Err(Errno::NoMemory)),
            Ok(Some(ptr)) => Ok(Ok(ptr)),
        },
    }
}

/// `malloc`
pub fn malloc(
    allocator: &Allocator,
    size: usize,
    thread: &mut ThreadHeaps,
    process: &mut Process,
) -> (out: Result<Result<usize, Errno>, Abort>)
    requires
        old(thread).wf(old(process).heaps),
        old(process).wf(),
    ensures
        sound(*old(process), *final(process), *old(thread), *final(thread)),
        given(
            *old(process),
            *final(process),
            *old(thread),
            *final(thread),
            out,
            size as int,
            16,
        ),
{
    aligned(allocator, MAX_ALIGN, size, thread, process)
}

/// `free`. Null is accepted and does nothing.
pub fn free(
    allocator: &Allocator,
    ptr: usize,
    thread: &mut ThreadHeaps,
    process: &mut Process,
) -> (out: Result<(), Abort>)
    requires
        old(thread).wf(old(process).heaps),
        old(process).wf(),
        old(process).freeable(ptr as int),
    ensures
        sound(*old(process), *final(process), *old(thread), *final(thread)),
        ptr == 0 ==> out is Ok && *final(process) == *old(process),
        ptr != 0 ==> spared(*old(process), *final(process)),
        ptr != 0 && out is Ok ==> removed(*old(process), *final(process), ptr),
        old(process).holds(ptr as int) ==> out is Ok == Allocator::can_free(
            *old(thread),
            *old(process),
            old(process).owner_at(ptr as int)->0,
            ptr,
        ),
{
    if ptr == 0 {
        proof {
            process.heaps.lemma_grown_refl();
            lemma_none_lost_refl(*process, *thread);
            if process.holds(0) {
                crate::process::lemma_holder(*process, 0);
            }
        }
        return Ok(());
    }
    allocator.free(ptr, thread, process)
}

/// `calloc`
pub fn calloc(
    allocator: &Allocator,
    nmemb: usize,
    size: usize,
    thread: &mut ThreadHeaps,
    process: &mut Process,
) -> (out: Result<Result<usize, Errno>, Abort>)
    requires
        old(thread).wf(old(process).heaps),
        old(process).wf(),
    ensures
        sound(*old(process), *final(process), *old(thread), *final(thread)),
        nmemb * size > usize::MAX ==> out == Ok::<Result<usize, Errno>, Abort>(
            Err(Errno::NoMemory),
        ) && *final(process) == *old(process),
        nmemb * size <= usize::MAX ==> given(
            *old(process),
            *final(process),
            *old(thread),
            *final(thread),
            out,
            nmemb * size,
            16,
        ) && (out matches Ok(Ok(ptr)) ==> zeroed(
            *old(process),
            *final(process),
            ptr,
            (nmemb * size) as usize,
        )),
{
    proof {
        process.heaps.lemma_grown_refl();
        lemma_none_lost_refl(*process, *thread);
    }
    let total: usize = match nmemb.checked_mul(size) {
        None => {
            return Ok(Err(Errno::NoMemory));
        },
        Some(total) => total,
    };
    match Layout::from_size_align(total, MAX_ALIGN) {
        None => Ok(Err(Errno::NoMemory)),
        Some(layout) => match allocator.alloc_zeroed(layout, thread, process) {
            Err(abort) => Err(abort),
            Ok(None) => Ok(Err(Errno::NoMemory)),
            Ok(Some(ptr)) => Ok(Ok(ptr)),
        },
    }
}

/// What `realloc` of a block to `size` bytes, neither null nor zero, leaves.
pub open spec fn resized(
    before: Process,
    after: Process,
    was: ThreadHeaps,
    now: ThreadHeaps,
    ptr: usize,
    size: usize,
    out: Result<Result<usize, Errno>, Abort>,
) -> bool {
    let layout = Layout { size, align: 16 };
    let owner = before.owner_at(ptr as int)->0;
    let len = if before.block_len(ptr as int) < size {
        before.block_len(ptr as int)
    } else {
        size as int
    };
    if !valid_layout(size as int, 16) {
        out == Ok::<Result<usize, Errno>, Abort>(Err(Errno::NoMemory)) && after == before
    } else {
        &&& Allocator::unfit(was, before, owner, ptr, layout) ==> out is Err
        &&& out != Ok::<Result<usize, Errno>, Abort>(Ok(ptr)) ==> left_alone(before, after, layout)
        &&& match out {
            Err(_) => Allocator::unfit(was, before, owner, ptr, layout) || !Allocator::can_free(
                was,
                before,
                owner,
                ptr,
            ),
            Ok(Err(errno)) => errno == Errno::NoMemory && same_held(before, after) && refused(
                before,
                was,
                now,
                layout,
            ) && asked_for(before, after, now, layout),
            Ok(Ok(to)) => if to == ptr {
                Allocator::fitted(before, after, ptr, layout) && now == was
            } else {
                &&& Allocator::moved(before, after, ptr, to, len, layout)
                &&& Allocator::owned_for(now, after, to, layout)
                &&& Allocator::can_free(was, before, owner, ptr)
            },
        }
    }
}

/// What `realloc` of a block to no bytes leaves: the block is freed, and null is given.
pub open spec fn released(
    before: Process,
    after: Process,
    was: ThreadHeaps,
    ptr: usize,
    out: Result<Result<usize, Errno>, Abort>,
) -> bool {
    &&& out is Ok == Allocator::can_free(was, before, before.owner_at(ptr as int)->0, ptr)
    &&& spared(before, after)
    &&& out matches Ok(got) ==> got == Ok::<usize, Errno>(0) && removed(before, after, ptr)
}

/// `realloc`. Null allocates; size zero frees and gives null.
pub fn realloc(
    allocator: &Allocator,
    ptr: usize,
    size: usize,
    thread: &mut ThreadHeaps,
    process: &mut Process,
) -> (out: Result<Result<usize, Errno>, Abort>)
    requires
        old(thread).wf(old(process).heaps),
        old(process).wf(),
        ptr != 0 ==> old(process).holds(ptr as int),
    ensures
        sound(*old(process), *final(process), *old(thread), *final(thread)),
        ptr == 0 ==> given(
            *old(process),
            *final(process),
            *old(thread),
            *final(thread),
            out,
            size as int,
            16,
        ),
        ptr != 0 && size == 0 ==> released(
            *old(process),
            *final(process),
            *old(thread),
            ptr,
            out,
        ),
        ptr != 0 && size != 0 ==> resized(
            *old(process),
            *final(process),
            *old(thread),
            *final(thread),
            ptr,
            size,
            out,
        ),
{
    proof {
        process.heaps.lemma_grown_refl();
        lemma_none_lost_refl(*process, *thread);
        if ptr != 0 {
            crate::process::lemma_holder(*process, ptr as int);
        }
    }
    if ptr == 0 {
        return malloc(allocator, size, thread, process);
    }
    if size == 0 {
        return match free(allocator, ptr, thread, process) {
            Ok(()) => Ok(Ok(0)),
            Err(abort) => Err(abort),
        };
    }
    match Layout::from_size_align(size, MAX_ALIGN) {
        None => Ok(Err(Errno::NoMemory)),
        Some(layout) => match allocator.resize(ptr, layout, thread, process) {
            Err(abort) => Err(abort),
            Ok(None) => Ok(Err(Errno::NoMemory)),
            Ok(Some(to)) => Ok(Ok(to)),
        },
    }
}

/// `posix_memalign`. `no_slot` says that the output pointer is null.
pub fn posix_memalign(
    allocator: &Allocator,
    no_slot: bool,
    alignment: usize,
    size: usize,
    thread: &mut ThreadHeaps,
    process: &mut Process,
) -> (out: Result<Result<usize, Errno>, Abort>)
    requires
        old(thread).wf(old(process).heaps),
        old(process).wf(),
    ensures
        sound(*old(process), *final(process), *old(thread), *final(thread)),
        no_slot || alignment < 8 || !is_pow2(alignment as int) ==> out == Ok::<
            Result<usize, Errno>,
            Abort,
        >(Err(Errno::Invalid)) && *final(process) == *old(process),
        !no_slot && alignment >= 8 && is_pow2(alignment as int) ==> given(
            *old(process),
            *final(process),
            *old(thread),
            *final(thread),
            out,
            size as int,
            alignment as int,
        ),
{
    proof {
        process.heaps.lemma_grown_refl();
        lemma_none_lost_refl(*process, *thread);
    }
    if no_slot || alignment < POINTER || !is_power_of_two(alignment) {
        return Ok(Err(Errno::Invalid));
    }
    aligned(allocator, alignment, size, thread, process)
}

/// `memalign`
pub fn memalign(
    allocator: &Allocator,
    alignment: usize,
    size: usize,
    thread: &mut ThreadHeaps,
    process: &mut Process,
) -> (out: Result<Result<usize, Errno>, Abort>)
    requires
        old(thread).wf(old(process).heaps),
        old(process).wf(),
    ensures
        sound(*old(process), *final(process), *old(thread), *final(thread)),
        !is_pow2(alignment as int) ==> out == Ok::<Result<usize, Errno>, Abort>(
            Err(Errno::Invalid),
        ) && *final(process) == *old(process),
        is_pow2(alignment as int) ==> given(
            *old(process),
            *final(process),
            *old(thread),
            *final(thread),
            out,
            size as int,
            alignment as int,
        ),
{
    proof {
        process.heaps.lemma_grown_refl();
        lemma_none_lost_refl(*process, *thread);
    }
    if !is_power_of_two(alignment) {
        return Ok(Err(Errno::Invalid));
    }
    aligned(allocator, alignment, size, thread, process)
}

/// `aligned_alloc`. The size is a multiple of the alignment.
pub fn aligned_alloc(
    allocator: &Allocator,
    alignment: usize,
    size: usize,
    thread: &mut ThreadHeaps,
    process: &mut Process,
) -> (out: Result<Result<usize, Errno>, Abort>)
    requires
        old(thread).wf(old(process).heaps),
        old(process).wf(),
    ensures
        sound(*old(process), *final(process), *old(thread), *final(thread)),
        !is_pow2(alignment as int) || size % alignment != 0 ==> out == Ok::<
            Result<usize, Errno>,
            Abort,
        >(Err(Errno::Invalid)) && *final(process) == *old(process),
        is_pow2(alignment as int) && size % alignment == 0 ==> given(
            *old(process),
            *final(process),
            *old(thread),
            *final(thread),
            out,
            size as int,
            alignment as int,
        ),
{
    proof {
        process.heaps.lemma_grown_refl();
        lemma_none_lost_refl(*process, *thread);
        reveal(is_pow2);
    }
    if !is_power_of_two(alignment) || size % alignment != 0 {
        return Ok(Err(Errno::Invalid));
    }
    memalign(allocator, alignment, size, thread, process)
}

/// `valloc`
pub fn valloc(
    allocator: &Allocator,
    size: usize,
    thread: &mut ThreadHeaps,
    process: &mut Process,
) -> (out: Result<Result<usize, Errno>, Abort>)
    requires
        old(thread).wf(old(process).heaps),
        old(process).wf(),
    ensures
        sound(*old(process), *final(process), *old(thread), *final(thread)),
        given(
            *old(process),
            *final(process),
            *old(thread),
            *final(thread),
            out,
            size as int,
            4096,
        ),
{
    proof {
        lemma_constants();
    }
    memalign(allocator, PAGE, size, thread, process)
}

/// `pvalloc`: whole pages, at least one.
pub fn pvalloc(
    allocator: &Allocator,
    size: usize,
    thread: &mut ThreadHeaps,
    process: &mut Process,
) -> (out: Result<Result<usize, Errno>, Abort>)
    requires
        old(thread).wf(old(process).heaps),
        old(process).wf(),
    ensures
        sound(*old(process), *final(process), *old(thread), *final(thread)),
        ({
            let asked: int = if size == 0 {
                1
            } else {
                size as int
            };
            &&& asked + 4095 > usize::MAX ==> out == Ok::<Result<usize, Errno>, Abort>(
                Err(Errno::NoMemory),
            ) && *final(process) == *old(process)
            &&& asked + 4095 <= usize::MAX ==> given(
                *old(process),
                *final(process),
                *old(thread),
                *final(thread),
                out,
                round_up(asked, 4096),
                4096,
            )
        }),
{
    proof {
        process.heaps.lemma_grown_refl();
        lemma_none_lost_refl(*process, *thread);
    }
    let asked: usize = if size == 0 {
        1
    } else {
        size
    };
    let rounded: usize = match asked.checked_add(PAGE - 1) {
        None => {
            return Ok(Err(Errno::NoMemory));
        },
        Some(len) => len - len % PAGE,
    };
    proof {
        crate::layout::lemma_round_up(asked as int, 4096);
    }
    valloc(allocator, rounded, thread, process)
}

/// `reallocarray`
pub fn reallocarray(
    allocator: &Allocator,
    ptr: usize,
    nmemb: usize,
    size: usize,
    thread: &mut ThreadHeaps,
    process: &mut Process,
) -> (out: Result<Result<usize, Errno>, Abort>)
    requires
        old(thread).wf(old(process).heaps),
        old(process).wf(),
        ptr != 0 ==> old(process).holds(ptr as int),
    ensures
        sound(*old(process), *final(process), *old(thread), *final(thread)),
        nmemb * size > usize::MAX ==> out == Ok::<Result<usize, Errno>, Abort>(
            Err(Errno::NoMemory),
        ) && *final(process) == *old(process),
        nmemb * size <= usize::MAX && ptr == 0 ==> given(
            *old(process),
            *final(process),
            *old(thread),
            *final(thread),
            out,
            nmemb * size,
            16,
        ),
        nmemb * size == 0 && ptr != 0 ==> released(
            *old(process),
            *final(process),
            *old(thread),
            ptr,
            out,
        ),
        0 < nmemb * size <= usize::MAX && ptr != 0 ==> resized(
            *old(process),
            *final(process),
            *old(thread),
            *final(thread),
            ptr,
            (nmemb * size) as usize,
            out,
        ),
{
    proof {
        process.heaps.lemma_grown_refl();
        lemma_none_lost_refl(*process, *thread);
    }
    match nmemb.checked_mul(size) {
        None => Ok(Err(Errno::NoMemory)),
        Some(total) => realloc(allocator, ptr, total, thread, process),
    }
}

/// `cfree`
pub fn cfree(
    allocator: &Allocator,
    ptr: usize,
    thread: &mut ThreadHeaps,
    process: &mut Process,
) -> (out: Result<(), Abort>)
    requires
        old(thread).wf(old(process).heaps),
        old(process).wf(),
        old(process).freeable(ptr as int),
    ensures
        sound(*old(process), *final(process), *old(thread), *final(thread)),
        ptr == 0 ==> out is Ok && *final(process) == *old(process),
        ptr != 0 ==> spared(*old(process), *final(process)),
        ptr != 0 && out is Ok ==> removed(*old(process), *final(process), ptr),
        old(process).holds(ptr as int) ==> out is Ok == Allocator::can_free(
            *old(thread),
            *old(process),
            old(process).owner_at(ptr as int)->0,
            ptr,
        ),
{
    free(allocator, ptr, thread, process)
}

/// `malloc_usable_size`
pub fn malloc_usable_size(allocator: &Allocator, ptr: usize, process: &Process) -> (size: usize)
    requires
        process.wf(),
    ensures
        process.holds(ptr as int) ==> size == process.block_len(ptr as int),
        size == Allocator::usable(*process, ptr),
{
    allocator.usable_size(ptr, process)
}

} // verus!
