use vstd::prelude::*;
use crate::error::ConcatError;

verus! {

/// The buffers of `s` laid end to end, in order.
pub open spec fn concat_all<T>(s: Seq<Seq<T>>) -> Seq<T>
    decreases s.len(),
{
    if s.len() == 0 {
        Seq::empty()
    } else {
        concat_all(s.drop_last()) + s.last()
    }
}

/// Concatenation distributes over splitting the list of buffers.
pub proof fn lemma_concat_all_append<T>(a: Seq<Seq<T>>, b: Seq<Seq<T>>)
    ensures
        concat_all(a + b) == concat_all(a) + concat_all(b),
    decreases b.len(),
{
    if b.len() == 0 {
        assert(a + b =~= a);
        assert(concat_all(a) + concat_all(b) =~= concat_all(a));
    } else {
        lemma_concat_all_append(a, b.drop_last());
        assert((a + b).drop_last() =~= a + b.drop_last());
        assert((a + b).last() == b.last());
        assert(concat_all(a + b) =~= concat_all(a) + concat_all(b));
    }
}

/// A single buffer concatenates to itself.
pub proof fn lemma_concat_all_single<T>(a: Seq<T>)
    ensures
        concat_all(seq![a]) == a,
{
    assert(seq![a].drop_last() =~= Seq::<Seq<T>>::empty());
    assert(concat_all(Seq::<Seq<T>>::empty()) == Seq::<T>::empty());
    assert(concat_all(seq![a]) =~= a);
}

/// Merging is associative on content: concatenating the concatenation of
/// `a` and `b` with `c` gives the concatenation of all three in order.
pub proof fn lemma_concat_associative<T>(a: Seq<T>, b: Seq<T>, c: Seq<T>)
    ensures
        concat_all(seq![concat_all(seq![a, b]), c]) == concat_all(seq![a, b, c]),
        concat_all(seq![a, concat_all(seq![b, c])]) == concat_all(seq![a, b, c]),
{
    assert(seq![a, b].drop_last() =~= seq![a]);
    assert(seq![a].drop_last() =~= Seq::<Seq<T>>::empty());
    assert(seq![b, c].drop_last() =~= seq![b]);
    assert(seq![b].drop_last() =~= Seq::<Seq<T>>::empty());
    assert(seq![a, b, c].drop_last() =~= seq![a, b]);
    let ab = concat_all(seq![a, b]);
    let bc = concat_all(seq![b, c]);
    assert(seq![ab, c].drop_last() =~= seq![ab]);
    assert(seq![ab].drop_last() =~= Seq::<Seq<T>>::empty());
    assert(seq![a, bc].drop_last() =~= seq![a]);
    lemma_concat_all_single(a);
    lemma_concat_all_single(b);
    lemma_concat_all_single(ab);
    assert(concat_all(seq![a, b]) =~= a + b);
    assert(concat_all(seq![b, c]) =~= b + c);
    assert(concat_all(seq![a, b, c]) =~= a + b + c);
    assert(concat_all(seq![ab, c]) =~= a + b + c);
    assert(concat_all(seq![a, bc]) =~= a + (b + c));
}

/// Views of a list of slices.
pub open spec fn views<T>(bufs: Seq<&[T]>) -> Seq<Seq<T>> {
    bufs.map_values(|b: &[T]| b@)
}

/// Copies every buffer, in order, into one new buffer.
pub fn parallel_concatenate_buffers<T: Copy>(bufs: &[&[T]]) -> (r: Vec<T>)
    ensures
        r@ == concat_all(views(bufs@)),
{
    let mut out: Vec<T> = Vec::new();
    let mut k: usize = 0;
    while k < bufs.len()
        invariant
            k <= bufs@.len(),
            out@ == concat_all(views(bufs@.take(k as int))),
        decreases bufs@.len() - k,
    {
        let buf: &[T] = bufs[k];
        proof {
            assert(views(bufs@.take(k + 1)).drop_last() =~= views(bufs@.take(k as int)));
        }
        let ghost before = out@;
        let mut j: usize = 0;
        while j < buf.len()
            invariant
                k < bufs@.len(),
                buf@ == bufs@[k as int]@,
                j <= buf@.len(),
                out@ == before + buf@.take(j as int),
            decreases buf@.len() - j,
        {
            out.push(buf[j]);
            proof {
                assert(buf@.take(j + 1) =~= buf@.take(j as int).push(buf@[j as int]));
            }
            j += 1;
        }
        proof {
            assert(buf@.take(j as int) =~= buf@);
        }
        k += 1;
    }
    proof {
        assert(bufs@.take(k as int) =~= bufs@);
    }
    out
}

/// The element type of a raw buffer: a kind tag and the width of one element.
#[derive(Debug, Clone, Copy, PartialEq, Eq, Structural)]
pub struct DType {
    pub kind: u8,
    pub itemsize: usize,
}

/// A raw array: its element type, whether it is laid out without gaps, its
/// bytes and its number of elements.
#[derive(Debug)]
pub struct RawBuffer {
    pub dtype: DType,
    pub contiguous: bool,
    pub data: Vec<u8>,
    pub len: usize,
}

impl RawBuffer {
    /// The bytes hold exactly `len` elements.
    pub open spec fn wf(&self) -> bool {
        self.data@.len() == self.len * self.dtype.itemsize
    }
}

/// Buffer `k` shares the first buffer's element type and is contiguous.
pub open spec fn buffer_ok(bs: Seq<RawBuffer>, k: int) -> bool {
    bs[k].dtype == bs[0].dtype && bs[k].contiguous
}

/// The error for the first buffer `k` that fails the check.
pub open spec fn buffer_error(bs: Seq<RawBuffer>, k: int) -> ConcatError {
    if bs[k].dtype != bs[0].dtype {
        ConcatError::DtypeMismatch(k as usize)
    } else {
        ConcatError::NonContiguous(k as usize)
    }
}

/// The bytes of each buffer.
pub open spec fn raw_views(bs: Seq<RawBuffer>) -> Seq<Seq<u8>> {
    bs.map_values(|b: RawBuffer| b.data@)
}

/// Concatenates raw arrays of one element type. Every buffer is checked
/// before anything is copied: the first one with another element type than
/// the first buffer, or that is not contiguous, is reported.
pub fn concatenate_numpy(buffers: &[RawBuffer]) -> (r: Result<Vec<u8>, ConcatError>)
    requires
        buffers@.len() >= 1,
        forall|k: int| 0 <= k < buffers@.len() ==> (#[trigger] buffers@[k]).wf(),
    ensures
        (forall|k: int| 0 <= k < buffers@.len() ==> buffer_ok(buffers@, k)) <==> r is Ok,
        r matches Ok(v) ==> v@ == concat_all(raw_views(buffers@)),
        r matches Err(e) ==> exists|k: int|
            0 <= k < buffers@.len() && !buffer_ok(buffers@, k) && (forall|j: int|
                0 <= j < k ==> buffer_ok(buffers@, j)) && e == buffer_error(buffers@, k),
{
    let first: DType = buffers[0].dtype;
    let mut k: usize = 0;
    while k < buffers.len()
        invariant
            k <= buffers@.len(),
            first == buffers@[0].dtype,
            forall|j: int| 0 <= j < k ==> buffer_ok(buffers@, j),
        decreases buffers@.len() - k,
    {
        let d: DType = buffers[k].dtype;
        if d.kind != first.kind || d.itemsize != first.itemsize {
            assert(buffers@[k as int].dtype != buffers@[0].dtype);
            assert(!buffer_ok(buffers@, k as int));
            return Err(ConcatError::DtypeMismatch(k));
        }
        if !buffers[k].contiguous {
            assert(buffers@[k as int].dtype == buffers@[0].dtype);
            assert(!buffer_ok(buffers@, k as int));
            return Err(ConcatError::NonContiguous(k));
        }
        k += 1;
    }
    let mut slices: Vec<&[u8]> = Vec::with_capacity(buffers.len());
    let mut j: usize = 0;
    while j < buffers.len()
        invariant
            j <= buffers@.len(),
            slices@.len() == j,
            forall|i: int| 0 <= i < j ==> (#[trigger] views(slices@)[i]) == buffers@[i].data@,
        decreases buffers@.len() - j,
    {
        let ghost old_views = views(slices@);
        slices.push(buffers[j].data.as_slice());
        proof {
            assert forall|i: int| 0 <= i < j + 1 implies (#[trigger] views(slices@)[i]) == buffers@[i].data@ by {
                if i < j {
                    assert(views(slices@)[i] == old_views[i]);
                }
            }
        }
        j += 1;
    }
    proof {
        assert(views(slices@) =~= raw_views(buffers@));
    }
    Ok(parallel_concatenate_buffers(slices.as_slice()))
}

} // verus!
