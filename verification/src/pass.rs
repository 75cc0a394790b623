//! Pass recording: workgroup sizing and the command list. A pass is an
//! open recording scope; each call records one kernel dispatch, with
//! its buffer slots, optional scalar parameter, and workgroup count,
//! without executing anything.

use vstd::prelude::*;
use crate::buffers::{MappableSingleValueBuffer, MappableStorageBuffer};

verus! {

/// Every kernel runs 64 invocations per workgroup along dimension X.
pub const WORKGROUP_SIZE: u32 = 64;

/// The least number of whole groups of `group_size` that covers `num`.
pub open spec fn ceil_div(num: int, group_size: int) -> int {
    (num + group_size - 1) / group_size
}

/// Number of workgroups dispatched for `num` work items at the given
/// group size: the ceiling of their quotient.
pub fn dispatch_count(num: u32, group_size: u32) -> (r: u32)
    requires
        group_size >= 1,
    ensures
        r == ceil_div(num as int, group_size as int),
        r * group_size >= num,
        num > 0 ==> (r - 1) * group_size < num,
{
    let q = num / group_size;
    let rem = num % group_size;
    let ghost n = num as int;
    let ghost g = group_size as int;
    let ghost qi = q as int;
    let ghost ri = rem as int;
    proof {
        vstd::arithmetic::div_mod::lemma_fundamental_div_mod(n, g);
    }
    if rem != 0 {
        proof {
            assert(qi < 0xffff_ffff) by (nonlinear_arith)
                requires
                    n == g * qi + ri,
                    1 <= ri,
                    ri < g,
                    n <= 0xffff_ffff,
                    qi >= 0,
            {
            }
            assert(n + g - 1 == (qi + 1) * g + (ri - 1)) by (nonlinear_arith)
                requires
                    n == g * qi + ri,
            {
            }
            vstd::arithmetic::div_mod::lemma_fundamental_div_mod_converse_div(
                n + g - 1,
                g,
                qi + 1,
                ri - 1,
            );
            assert((qi + 1) * g >= n && qi * g < n) by (nonlinear_arith)
                requires
                    n == g * qi + ri,
                    1 <= ri,
                    ri < g,
            {
            }
        }
        q + 1
    } else {
        proof {
            assert(n + g - 1 == qi * g + (g - 1)) by (nonlinear_arith)
                requires
                    n == g * qi,
                    g >= 1,
            {
            }
            vstd::arithmetic::div_mod::lemma_fundamental_div_mod_converse_div(
                n + g - 1,
                g,
                qi,
                g - 1,
            );
            assert(qi * g >= n && (n > 0 ==> (qi - 1) * g < n)) by (nonlinear_arith)
                requires
                    n == g * qi,
                    g >= 1,
            {
            }
        }
        q
    }
}

/// One recorded kernel dispatch: the kernel, the store slots bound to
/// its layout, the scalar push parameter if the kernel takes one, and
/// the workgroup count derived from the primary input's length.
#[derive(Clone, Copy, PartialEq, Eq, Structural, Debug)]
pub enum Dispatch {
    /// Element-wise modulo transform, read-write layout, scalar parameter.
    ModInPlace { buffer: usize, value: u32, workgroups: u32 },
    /// Indexed scatter of one constant, input/output layout, scalar parameter.
    ScatterWithValue { indices: usize, output: usize, value: u32, workgroups: u32 },
    /// Parallel sum reduction, input/output layout, no scalar parameter.
    SumReduce { input: usize, output: usize, workgroups: u32 },
}

/// An open recording scope: the dispatches recorded so far, in order.
/// Submitting the pass consumes it, so a pass cannot be submitted twice.
pub struct Pass {
    cmds: Vec<Dispatch>,
}

impl View for Pass {
    type V = Seq<Dispatch>;

    closed spec fn view(&self) -> Seq<Dispatch> {
        self.cmds@
    }
}

impl Pass {
    /// Opens an empty recording scope.
    pub fn new() -> (r: Pass)
        ensures
            r@ == Seq::<Dispatch>::empty(),
    {
        let p = Pass { cmds: Vec::new() };
        proof {
            assert(p@ =~= Seq::<Dispatch>::empty());
        }
        p
    }

    /// The dispatches recorded so far, in recording order; a driver
    /// for a real device replays exactly these records.
    pub fn commands(&self) -> (r: &Vec<Dispatch>)
        ensures
            r@ == self@,
    {
        &self.cmds
    }

    /// Records the element-wise modulo transform: every element of
    /// `buffer` is to be replaced by its remainder modulo `value`.
    pub fn mod_buffer_in_place(&mut self, buffer: &MappableStorageBuffer, value: u32)
        requires
            value >= 1,
            buffer.spec_len() <= u32::MAX,
        ensures
            final(self)@ == old(self)@.push(
                Dispatch::ModInPlace {
                    buffer: buffer.id(),
                    value: value,
                    workgroups: ceil_div(buffer.spec_len() as int, WORKGROUP_SIZE as int) as u32,
                },
            ),
    {
        let workgroups = dispatch_count(buffer.len() as u32, WORKGROUP_SIZE);
        self.cmds.push(
            Dispatch::ModInPlace { buffer: buffer.slot(), value, workgroups },
        );
    }

    /// Records the indexed scatter: for every entry of `indices`, the
    /// element of `output` at that index is to be set to `value`.
    pub fn scatter_with_value(
        &mut self,
        indices: &MappableStorageBuffer,
        output: &MappableStorageBuffer,
        value: u32,
    )
        requires
            indices.spec_len() <= u32::MAX,
        ensures
            final(self)@ == old(self)@.push(
                Dispatch::ScatterWithValue {
                    indices: indices.id(),
                    output: output.id(),
                    value: value,
                    workgroups: ceil_div(indices.spec_len() as int, WORKGROUP_SIZE as int) as u32,
                },
            ),
    {
        let workgroups = dispatch_count(indices.len() as u32, WORKGROUP_SIZE);
        self.cmds.push(
            Dispatch::ScatterWithValue {
                indices: indices.slot(),
                output: output.slot(),
                value,
                workgroups,
            },
        );
    }

    /// Records the sum reduction: the single element of `output` is to
    /// become the wrapped sum of all elements of `input`.
    pub fn sum_reduce(&mut self, input: &MappableStorageBuffer, output: &MappableSingleValueBuffer)
        requires
            input.spec_len() <= u32::MAX,
        ensures
            final(self)@ == old(self)@.push(
                Dispatch::SumReduce {
                    input: input.id(),
                    output: output.id(),
                    workgroups: ceil_div(input.spec_len() as int, WORKGROUP_SIZE as int) as u32,
                },
            ),
    {
        let workgroups = dispatch_count(input.len() as u32, WORKGROUP_SIZE);
        self.cmds.push(
            Dispatch::SumReduce { input: input.slot(), output: output.slot(), workgroups },
        );
    }
}

} // verus!
