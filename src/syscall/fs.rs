use vstd::prelude::*;
use crate::kernel::Kernel;
use crate::syscall::process::caller_kept;
use crate::mm::translate::{apply_writes, range_accessible, translated_pa};
use crate::mm::address::{PERM_R, PERM_U, PERM_W};

verus! {

/// Standard input.
pub const FD_STDIN: usize = 0;

/// Standard output.
pub const FD_STDOUT: usize = 1;

/// Writes the `len` bytes at user address `buf` of the running task to the console.
/// Returns `len`, or -1 when `fd` is not standard output, `len` does not fit the
/// result, or the buffer cannot be read.
pub fn sys_write(k: &mut Kernel, fd: usize, buf: usize, len: usize) -> (r: isize)
    requires
        old(k).wf(),
        old(k).processor.current is Some,
    ensures
        caller_kept(*old(k), *final(k)),
        final(k).wf(),
        final(k).tasks == old(k).tasks,
        final(k).mem == old(k).mem,
        final(k).processor == old(k).processor,
        final(k).manager == old(k).manager,
        ({
            let pt = old(k).inner(old(k).processor.current->0 as int).memory_set@;
            &&& r == if fd == FD_STDOUT && len <= isize::MAX && range_accessible(pt, buf as int, len as int, PERM_U | PERM_R) {
                len as isize
            } else {
                -1isize
            }
            &&& r >= 0 ==> final(k).console_out@.len() == old(k).console_out@.len() + len
                && final(k).console_out@.subrange(0, old(k).console_out@.len() as int) == old(k).console_out@
                && forall|i: int| 0 <= i < len ==> #[trigger] final(k).console_out@[old(k).console_out@.len() + i]
                    == old(k).mem@[translated_pa(pt, buf + i)]
            &&& r < 0 ==> final(k).console_out == old(k).console_out
        }),
{
    if fd != FD_STDOUT || len > isize::MAX as usize {
        return -1;
    }
    let c = k.processor.current.unwrap();
    match k.read_user(c, buf, len, ) {
        Some(bytes) => {
            let mut out: Vec<u8> = Vec::new();
            std::mem::swap(&mut k.console_out, &mut out);
            let ghost o = out@;
            let mut i: usize = 0;
            while i < len
                invariant
                    i <= len == bytes@.len(),
                    out@ == o + bytes@.take(i as int),
                decreases len - i,
            {
                out.push(bytes[i]);
                i += 1;
                assert(out@ =~= o + bytes@.take(i as int));
            }
            std::mem::swap(&mut k.console_out, &mut out);
            proof {
                k.lemma_wf_mem_only(*old(k));
                assert(bytes@.take(len as int) =~= bytes@);
                assert(k.console_out@.subrange(0, o.len() as int) =~= o);
            }
            len as isize
        },
        None => -1,
    }
}

/// Moves up to `len` bytes typed on the console to user address `buf` of the running
/// task. Returns how many, or -1 when `fd` is not standard input or the buffer
/// cannot be written.
pub fn sys_read(k: &mut Kernel, fd: usize, buf: usize, len: usize) -> (r: isize)
    requires
        old(k).wf(),
        old(k).processor.current is Some,
    ensures
        caller_kept(*old(k), *final(k)),
        final(k).wf(),
        final(k).tasks == old(k).tasks,
        final(k).processor == old(k).processor,
        final(k).manager == old(k).manager,
        ({
            let pt = old(k).inner(old(k).processor.current->0 as int).memory_set@;
            let n = if len < old(k).console_in@.len() { len as int } else { old(k).console_in@.len() as int };
            &&& r == -1 <==> (fd != FD_STDIN || n > isize::MAX || !range_accessible(pt, buf as int, n, PERM_U | PERM_W))
            &&& r == -1 || r == n
            &&& r >= 0 ==> final(k).console_in@ == old(k).console_in@.subrange(n, old(k).console_in@.len() as int)
            &&& r >= 0 ==> final(k).mem@ == apply_writes(old(k).mem@, pt, buf as int, old(k).console_in@.take(n))
            &&& r < 0 ==> final(k).console_in == old(k).console_in && final(k).mem == old(k).mem
        }),
{
    if fd != FD_STDIN {
        return -1;
    }
    let c = k.processor.current.unwrap();
    let n = if len < k.console_in.len() { len } else { k.console_in.len() };
    if n > isize::MAX as usize {
        return -1;
    }
    let mut input: Vec<u8> = Vec::new();
    std::mem::swap(&mut k.console_in, &mut input);
    let mut bytes: Vec<u8> = Vec::new();
    let mut i: usize = 0;
    while i < n
        invariant
            i <= n <= input@.len(),
            bytes@ == input@.take(i as int),
        decreases n - i,
    {
        bytes.push(input[i]);
        i += 1;
        assert(bytes@ =~= input@.take(i as int));
    }
    let mut rest: Vec<u8> = Vec::new();
    let mut j: usize = n;
    while j < input.len()
        invariant
            n <= j <= input@.len(),
            rest@ == input@.subrange(n as int, j as int),
        decreases input@.len() - j,
    {
        rest.push(input[j]);
        j += 1;
        assert(rest@ =~= input@.subrange(n as int, j as int));
    }
    std::mem::swap(&mut k.console_in, &mut input);
    proof {
        k.lemma_wf_mem_only(*old(k));
        assert(bytes@ == old(k).console_in@.take(n as int));
    }
    if !k.write_user(c, buf, &bytes) {
        return -1;
    }
    let ghost k1 = *k;
    k.console_in = rest;
    proof {
        k.lemma_wf_mem_only(k1);
    }
    n as isize
}

} // verus!
