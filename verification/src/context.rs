//! The device model: a context owns a store of typed buffers and a
//! queue. Uploading allocates and fills a buffer, submitting a pass
//! executes its recorded dispatches in order against the store, and
//! reading a buffer back yields its contents once all submitted work
//! is done. Each kernel's effect on the store is given exactly.

use vstd::prelude::*;
use crate::buffers::{MappableSingleValueBuffer, MappableStorageBuffer};
use crate::host::{
    chunk_sums, lemma_chunk_sums_peel, lemma_chunk_sums_total, mod_seq, scatter_spec, wsum,
};
use crate::pass::{Dispatch, Pass, WORKGROUP_SIZE};

verus! {

/// The store slot that a dispatch writes; every other slot is left as
/// it was.
pub open spec fn writes_target(d: Dispatch) -> int {
    match d {
        Dispatch::ModInPlace { buffer, .. } => buffer as int,
        Dispatch::ScatterWithValue { output, .. } => output as int,
        Dispatch::SumReduce { output, .. } => output as int,
    }
}

/// The layout and bounds checks a dispatch must pass before it may
/// run against the store: slots allocated, a non-zero modulus, scatter
/// indices within the output, distinct input and output slots, and a
/// single-element reduction output.
pub open spec fn dispatch_valid(bufs: Seq<Seq<u32>>, d: Dispatch) -> bool {
    match d {
        Dispatch::ModInPlace { buffer, value, .. } => buffer < bufs.len() && value >= 1,
        Dispatch::ScatterWithValue { indices, output, .. } => {
            let idx = bufs[indices as int];
            let out = bufs[output as int];
            &&& indices < bufs.len()
            &&& output < bufs.len()
            &&& indices != output
            &&& forall|k: int| 0 <= k < idx.len() ==> idx[k] < out.len()
        },
        Dispatch::SumReduce { input, output, .. } => {
            &&& input < bufs.len()
            &&& output < bufs.len()
            &&& input != output
            &&& bufs[output as int].len() == 1
        },
    }
}

/// What one dispatch does to the store: the modulo transform rewrites
/// its buffer element-wise, the scatter sets the indexed positions of
/// its output to the constant, and the reduction writes the wrapped
/// sum of its input into its single-element output.
pub open spec fn apply_dispatch(bufs: Seq<Seq<u32>>, d: Dispatch) -> Seq<Seq<u32>> {
    match d {
        Dispatch::ModInPlace { buffer, value, .. } => bufs.update(
            buffer as int,
            mod_seq(bufs[buffer as int], value),
        ),
        Dispatch::ScatterWithValue { indices, output, value, .. } => bufs.update(
            output as int,
            scatter_spec(bufs[output as int], bufs[indices as int], value),
        ),
        Dispatch::SumReduce { input, output, .. } => bufs.update(
            output as int,
            seq![wsum(bufs[input as int])],
        ),
    }
}

/// The store after a submitted pass: its dispatches applied in
/// recording order.
pub open spec fn run_pass(bufs: Seq<Seq<u32>>, cmds: Seq<Dispatch>) -> Seq<Seq<u32>>
    decreases cmds.len(),
{
    if cmds.len() == 0 {
        bufs
    } else {
        run_pass(apply_dispatch(bufs, cmds[0]), cmds.skip(1))
    }
}

/// Every dispatch of the pass passes its checks against the store as
/// it stands when that dispatch runs.
pub open spec fn pass_valid(bufs: Seq<Seq<u32>>, cmds: Seq<Dispatch>) -> bool
    decreases cmds.len(),
{
    cmds.len() == 0 || (dispatch_valid(bufs, cmds[0]) && pass_valid(
        apply_dispatch(bufs, cmds[0]),
        cmds.skip(1),
    ))
}

/// Law: a valid pass neither adds nor drops buffers, and no buffer's
/// element count changes when it runs.
pub proof fn lemma_run_pass_preserves_shape(bufs: Seq<Seq<u32>>, cmds: Seq<Dispatch>)
    requires
        pass_valid(bufs, cmds),
    ensures
        run_pass(bufs, cmds).len() == bufs.len(),
        forall|i: int| 0 <= i < bufs.len() ==> run_pass(bufs, cmds)[i].len() == bufs[i].len(),
    decreases cmds.len(),
{
    if cmds.len() > 0 {
        let bufs2 = apply_dispatch(bufs, cmds[0]);
        assert(bufs2.len() == bufs.len());
        assert forall|i: int| 0 <= i < bufs.len() implies bufs2[i].len() == bufs[i].len() by {
            if i == writes_target(cmds[0]) {
                match cmds[0] {
                    Dispatch::ModInPlace { buffer, value, .. } => {
                        assert(bufs2[i] == mod_seq(bufs[i], value));
                    },
                    Dispatch::ScatterWithValue { indices, output, value, .. } => {
                        assert(bufs2[i] == scatter_spec(bufs[i], bufs[indices as int], value));
                    },
                    Dispatch::SumReduce { input, .. } => {
                        assert(bufs2[i] == seq![wsum(bufs[input as int])]);
                        assert(bufs[i].len() == 1);
                    },
                }
            }
        };
        lemma_run_pass_preserves_shape(bufs2, cmds.skip(1));
    }
}

/// Law: a pass none of whose dispatches writes buffer slot `b` leaves
/// that buffer's contents exactly as they were; in particular, a
/// buffer read back after unrelated submissions holds exactly what
/// was uploaded to it.
pub proof fn lemma_run_pass_preserves_unwritten(bufs: Seq<Seq<u32>>, cmds: Seq<Dispatch>, b: int)
    requires
        pass_valid(bufs, cmds),
        0 <= b < bufs.len(),
        forall|k: int| 0 <= k < cmds.len() ==> writes_target(#[trigger] cmds[k]) != b,
    ensures
        run_pass(bufs, cmds)[b] == bufs[b],
    decreases cmds.len(),
{
    if cmds.len() > 0 {
        let bufs2 = apply_dispatch(bufs, cmds[0]);
        assert(writes_target(cmds[0]) != b);
        assert(bufs2[b] == bufs[b]);
        assert(bufs2.len() == bufs.len());
        assert forall|k: int|
            0 <= k < cmds.skip(1).len() implies writes_target(#[trigger] cmds.skip(1)[k]) != b by {
            assert(cmds.skip(1)[k] == cmds[k + 1]);
        };
        lemma_run_pass_preserves_unwritten(bufs2, cmds.skip(1), b);
    }
}

/// Sums as the device reduction does: one wrapped partial per
/// workgroup-sized chunk of the input, the partials then summed in
/// turn. Equal to the host's flat wrapped sum for every partitioning.
pub fn gpu_sum(input: &[u32]) -> (r: u32)
    ensures
        r == wsum(input@),
{
    let n = input.len();
    let group = WORKGROUP_SIZE as usize;
    let mut partials: Vec<u32> = Vec::new();
    let mut c: usize = 0;
    proof {
        assert(input@.skip(0) =~= input@);
        assert(partials@ + chunk_sums(input@, group as int) =~= chunk_sums(
            input@,
            group as int,
        ));
    }
    while c < n
        invariant
            0 <= c <= n,
            n == input@.len(),
            group == WORKGROUP_SIZE,
            chunk_sums(input@, group as int) == partials@ + chunk_sums(
                input@.skip(c as int),
                group as int,
            ),
        decreases n - c,
    {
        let step = if n - c >= group {
            group
        } else {
            n - c
        };
        let chunk = vstd::slice::slice_subrange(input, c, c + step);
        let partial = crate::host::sum(chunk);
        proof {
            lemma_chunk_sums_peel(input@, c as int, group as int);
            assert(partials@.push(partial) + chunk_sums(input@.skip(c as int + step as int), group as int)
                =~= partials@ + chunk_sums(input@.skip(c as int), group as int));
        }
        partials.push(partial);
        c = c + step;
    }
    proof {
        assert(input@.skip(n as int) =~= Seq::<u32>::empty());
        assert(chunk_sums(Seq::<u32>::empty(), group as int) =~= Seq::<u32>::empty());
        assert(partials@ + Seq::<u32>::empty() =~= partials@);
        lemma_chunk_sums_total(input@, group as int);
    }
    crate::host::sum(partials.as_slice())
}

/// Owns the device connection: the buffer store and the queue that
/// recorded passes are submitted to.
pub struct Context {
    buffers: Vec<Vec<u32>>,
}

/// The handle names an allocated slot whose element count matches the
/// handle's fixed length.
pub open spec fn buffer_live(ctx: Context, b: MappableStorageBuffer) -> bool {
    b.id() < ctx.bufs().len() && ctx.bufs()[b.id() as int].len() == b.spec_len()
}

/// The handle names an allocated slot holding exactly one element.
pub open spec fn single_live(ctx: Context, b: MappableSingleValueBuffer) -> bool {
    b.id() < ctx.bufs().len() && ctx.bufs()[b.id() as int].len() == 1
}

/// A scoped, read-only view of one buffer's contents, constructed only
/// after all submitted work is complete.
pub struct MappedBuffer {
    values: Vec<u32>,
}

impl View for MappedBuffer {
    type V = Seq<u32>;

    closed spec fn view(&self) -> Seq<u32> {
        self.values@
    }
}

impl MappedBuffer {
    /// The mapped contents, as the buffer's element type.
    pub fn values(&self) -> (r: &Vec<u32>)
        ensures
            r@ == self@,
    {
        &self.values
    }
}

impl Context {
    /// The device store: one sequence of elements per allocated buffer,
    /// in allocation order.
    pub closed spec fn bufs(self) -> Seq<Seq<u32>> {
        Seq::new(self.buffers@.len(), |i: int| self.buffers@[i]@)
    }

    /// Connects to the device and registers the kernels. The model
    /// starts with an empty buffer store.
    pub fn new() -> (r: Context)
        ensures
            r.bufs() == Seq::<Seq<u32>>::empty(),
    {
        let ctx = Context { buffers: Vec::new() };
        proof {
            assert(ctx.bufs() =~~= Seq::<Seq<u32>>::empty());
        }
        ctx
    }

    /// Copies `data` into a freshly allocated device buffer sized
    /// exactly to it; the whole array is copied.
    pub fn upload(&mut self, data: &[u32]) -> (r: MappableStorageBuffer)
        requires
            data@.len() <= u32::MAX,
        ensures
            final(self).bufs() == old(self).bufs().push(data@),
            r.id() == old(self).bufs().len(),
            r.spec_len() == data@.len(),
            buffer_live(*final(self), r),
    {
        let id = self.buffers.len();
        let len = data.len();
        let copied = vstd::slice::slice_to_vec(data);
        self.buffers.push(copied);
        proof {
            assert(self.bufs() =~~= old(self).bufs().push(data@));
        }
        MappableStorageBuffer::new_handle(id, len)
    }

    /// Allocates a device buffer of `len` elements whose contents are
    /// unspecified; nothing should read it before a dispatch writes it.
    pub fn storage_buffer_of_length(&mut self, len: u32) -> (r: MappableStorageBuffer)
        ensures
            final(self).bufs().len() == old(self).bufs().len() + 1,
            forall|i: int|
                0 <= i < old(self).bufs().len() ==> final(self).bufs()[i] == old(self).bufs()[i],
            r.id() == old(self).bufs().len(),
            r.spec_len() == len,
            buffer_live(*final(self), r),
    {
        let id = self.buffers.len();
        let fresh = crate::host::zeroed_array_of_size(len);
        self.buffers.push(fresh);
        proof {
            assert(forall|i: int|
                0 <= i < old(self).bufs().len() ==> final(self).bufs()[i] == old(self).bufs()[i]);
        }
        MappableStorageBuffer::new_handle(id, len as usize)
    }

    /// Allocates a single-element device buffer, for use as a
    /// reduction's output slot; its contents are unspecified.
    pub fn single_value_buffer(&mut self) -> (r: MappableSingleValueBuffer)
        ensures
            final(self).bufs().len() == old(self).bufs().len() + 1,
            forall|i: int|
                0 <= i < old(self).bufs().len() ==> final(self).bufs()[i] == old(self).bufs()[i],
            r.id() == old(self).bufs().len(),
            single_live(*final(self), r),
    {
        let id = self.buffers.len();
        let fresh = crate::host::zeroed_array_of_size(1);
        self.buffers.push(fresh);
        proof {
            assert(forall|i: int|
                0 <= i < old(self).bufs().len() ==> final(self).bufs()[i] == old(self).bufs()[i]);
        }
        MappableSingleValueBuffer::new_handle(id)
    }

    /// Runs one dispatch against the store.
    fn apply_one(&mut self, d: &Dispatch)
        requires
            dispatch_valid(old(self).bufs(), *d),
        ensures
            final(self).bufs() == apply_dispatch(old(self).bufs(), *d),
    {
        match *d {
            Dispatch::ModInPlace { buffer, value, workgroups: _ } => {
                let n = self.buffers[buffer].len();
                let mut out: Vec<u32> = Vec::new();
                let mut j: usize = 0;
                while j < n
                    invariant
                        0 <= j <= n,
                        value >= 1,
                        buffer < self.buffers@.len(),
                        n == self.buffers@[buffer as int]@.len(),
                        out@.len() == j,
                        forall|k: int|
                            0 <= k < j ==> out@[k] == (self.buffers@[buffer as int]@[k]
                                % value) as u32,
                    decreases n - j,
                {
                    let row = &self.buffers[buffer];
                    let e = row[j] % value;
                    out.push(e);
                    j = j + 1;
                }
                proof {
                    assert(out@ =~= mod_seq(old(self).bufs()[buffer as int], value));
                }
                self.buffers[buffer] = out;
                proof {
                    assert(self.bufs() =~~= apply_dispatch(old(self).bufs(), *d));
                }
            },
            Dispatch::ScatterWithValue { indices, output, value, workgroups: _ } => {
                let src = &self.buffers[output];
                let mut out: Vec<u32> = vstd::slice::slice_to_vec(src.as_slice());
                let idx = &self.buffers[indices];
                proof {
                    assert(old(self).bufs()[indices as int] == self.buffers@[indices as int]@);
                    assert(old(self).bufs()[output as int] == self.buffers@[output as int]@);
                }
                crate::host::scatter_with_value(out.as_mut_slice(), idx.as_slice(), value);
                self.buffers[output] = out;
                proof {
                    assert(self.bufs() =~~= apply_dispatch(old(self).bufs(), *d));
                }
            },
            Dispatch::SumReduce { input, output, workgroups: _ } => {
                let src = &self.buffers[input];
                let total = gpu_sum(src.as_slice());
                let mut single: Vec<u32> = Vec::new();
                single.push(total);
                proof {
                    assert(single@ =~= seq![wsum(old(self).bufs()[input as int])]);
                }
                self.buffers[output] = single;
                proof {
                    assert(self.bufs() =~~= apply_dispatch(old(self).bufs(), *d));
                }
            },
        }
    }

    /// Submits a recorded pass to the queue as one atomic submission:
    /// its dispatches execute in recording order against the store.
    /// The pass is consumed, so it cannot be submitted twice.
    pub fn do_in_pass(&mut self, pass: Pass)
        requires
            pass_valid(old(self).bufs(), pass@),
        ensures
            final(self).bufs() == run_pass(old(self).bufs(), pass@),
            final(self).bufs().len() == old(self).bufs().len(),
            forall|i: int|
                0 <= i < old(self).bufs().len() ==> final(self).bufs()[i].len() == old(
                    self,
                ).bufs()[i].len(),
    {
        proof {
            lemma_run_pass_preserves_shape(old(self).bufs(), pass@);
        }
        let cmds = pass.commands();
        let n = cmds.len();
        let mut i: usize = 0;
        proof {
            assert(pass@.skip(0) =~= pass@);
        }
        while i < n
            invariant
                0 <= i <= n,
                n == pass@.len(),
                cmds@ == pass@,
                pass_valid(self.bufs(), pass@.skip(i as int)),
                run_pass(old(self).bufs(), pass@) == run_pass(self.bufs(), pass@.skip(i as int)),
            decreases n - i,
        {
            let d = cmds[i];
            proof {
                assert(pass@.skip(i as int)[0] == pass@[i as int]);
                assert(pass@.skip(i as int).skip(1) =~= pass@.skip(i as int + 1));
            }
            self.apply_one(&d);
            i = i + 1;
        }
        proof {
            assert(pass@.skip(n as int) =~= Seq::<Dispatch>::empty());
        }
    }

    /// Blocks until the queue has drained all submitted work, then
    /// maps `buffer` for host reading: the view holds exactly the
    /// buffer's current contents.
    pub fn read_buffer(&self, buffer: &MappableStorageBuffer) -> (r: MappedBuffer)
        requires
            buffer_live(*self, *buffer),
        ensures
            r@ == self.bufs()[buffer.id() as int],
    {
        let id = buffer.slot();
        let values = vstd::slice::slice_to_vec(self.buffers[id].as_slice());
        MappedBuffer { values }
    }

    /// Blocks until the queue has drained all submitted work, then
    /// reads back the one element of a single-value buffer.
    pub fn read_single_value(&self, buffer: &MappableSingleValueBuffer) -> (r: u32)
        requires
            single_live(*self, *buffer),
        ensures
            r == self.bufs()[buffer.id() as int][0],
    {
        let id = buffer.slot();
        self.buffers[id][0]
    }
}

} // verus!
