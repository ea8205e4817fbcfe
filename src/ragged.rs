use vstd::prelude::*;
use rayon::iter::{IndexedParallelIterator, IntoParallelRefIterator, ParallelIterator};
use crate::concat::{
    concat_all, lemma_concat_all_append, lemma_concat_all_single, parallel_concatenate_buffers, views,
};

verus! {

/// Offsets `o` delimit a content buffer of length `len`: they start at zero,
/// never decrease and end at `len`.
pub open spec fn offsets_wf(len: int, o: Seq<i64>) -> bool {
    &&& o.len() >= 1
    &&& o[0] == 0
    &&& forall|i: int, j: int| 0 <= i <= j < o.len() ==> o[i] <= o[j]
    &&& o.last() == len
}

/// The last offset of a chunk, zero where it has none.
pub open spec fn last_or_zero(o: Seq<i64>) -> int {
    if o.len() == 0 {
        0
    } else {
        o.last() as int
    }
}

/// Where the content of chunk `k` is placed: the sum of the last offsets of
/// the chunks before it.
pub open spec fn base_at(offs: Seq<Seq<i64>>, k: int) -> int
    decreases k,
{
    if k <= 0 {
        0
    } else {
        base_at(offs, k - 1) + last_or_zero(offs[k - 1])
    }
}

/// Every offset of `o` moved by `b`.
pub open spec fn shift_spec(o: Seq<i64>, b: int) -> Seq<i64> {
    o.map_values(|x: i64| (x + b) as i64)
}

/// Every offset of `o` moved by `b` stays within `i64`.
pub open spec fn shift_fits(o: Seq<i64>, b: int) -> bool {
    forall|i: int| 0 <= i < o.len() ==> i64::MIN <= #[trigger] o[i] + b <= i64::MAX
}

/// The offsets of each chunk, each moved to its placement.
pub open spec fn shifted_all(offs: Seq<Seq<i64>>) -> Seq<Seq<i64>> {
    Seq::new(offs.len(), |k: int| shift_spec(offs[k], base_at(offs, k)))
}

/// A ragged array: entry `i` is `content[cu_seqlens[i]..cu_seqlens[i + 1]]`.
#[derive(Debug)]
pub struct AwkwardArray<T> {
    pub content: Vec<T>,
    pub cu_seqlens: Vec<i64>,
}

/// The content buffers of a list of ragged arrays.
pub open spec fn contents_of<T>(arrs: Seq<AwkwardArray<T>>) -> Seq<Seq<T>> {
    arrs.map_values(|a: AwkwardArray<T>| a.content@)
}

/// The offset buffers of a list of ragged arrays.
pub open spec fn offsets_of<T>(arrs: Seq<AwkwardArray<T>>) -> Seq<Seq<i64>> {
    arrs.map_values(|a: AwkwardArray<T>| a.cu_seqlens@)
}

impl<T> AwkwardArray<T> {
    /// The offsets delimit the content.
    pub open spec fn wf(&self) -> bool {
        offsets_wf(self.content@.len() as int, self.cu_seqlens@)
    }

    pub fn new(content: Vec<T>, cu_seqlens: Vec<i64>) -> (r: AwkwardArray<T>)
        ensures
            r.content@ == content@,
            r.cu_seqlens@ == cu_seqlens@,
    {
        AwkwardArray { content, cu_seqlens }
    }
}

/// Returns `o` with `b` added to every offset.
pub fn shift_offsets(o: &Vec<i64>, b: i64) -> (r: Vec<i64>)
    requires
        shift_fits(o@, b as int),
    ensures
        r@ == shift_spec(o@, b as int),
{
    let mut out: Vec<i64> = Vec::with_capacity(o.len());
    let mut i: usize = 0;
    while i < o.len()
        invariant
            i <= o@.len(),
            shift_fits(o@, b as int),
            out@ == shift_spec(o@, b as int).take(i as int),
        decreases o@.len() - i,
    {
        out.push(o[i] + b);
        proof {
            assert(shift_spec(o@, b as int).take(i + 1) =~= shift_spec(o@, b as int).take(i as int).push(
                (o@[i as int] + b) as i64,
            ));
        }
        i += 1;
    }
    proof {
        assert(shift_spec(o@, b as int).take(i as int) =~= shift_spec(o@, b as int));
    }
    out
}

/// Relies on rayon's `par_iter`, `zip`, `map` and `collect`: one result per
/// pair of items, collected in the items' order.
#[verifier::external_body]
fn par_shift<T: Sync>(arrs: &[AwkwardArray<T>], bases: &Vec<i64>) -> (r: Vec<Vec<i64>>)
    requires
        bases@.len() == arrs@.len(),
        forall|k: int| 0 <= k < arrs@.len() ==> shift_fits(arrs@[k].cu_seqlens@, bases@[k] as int),
    ensures
        r@.len() == arrs@.len(),
        forall|k: int| 0 <= k < arrs@.len() ==> r@[k]@ == shift_spec(arrs@[k].cu_seqlens@, bases@[k] as int),
{
    arrs.par_iter().zip(bases.par_iter()).map(|(a, b)| shift_offsets(&a.cu_seqlens, *b)).collect()
}

/// The offsets of a well-formed ragged array start at zero, never decrease
/// from one entry to the next and end at the content's length.
pub proof fn lemma_offsets_monotone<T>(a: AwkwardArray<T>)
    requires
        a.wf(),
    ensures
        a.cu_seqlens@[0] == 0,
        forall|i: int| 0 <= i < a.cu_seqlens@.len() - 1 ==> a.cu_seqlens@[i] <= #[trigger] a.cu_seqlens@[i + 1],
        a.cu_seqlens@.last() == a.content@.len(),
{
    assert forall|i: int| 0 <= i < a.cu_seqlens@.len() - 1 implies a.cu_seqlens@[i] <= #[trigger] a.cu_seqlens@[i + 1] by {
        assert(0 <= i <= i + 1 < a.cu_seqlens@.len());
    }
}

/// Every array of the list is well formed.
pub open spec fn all_wf<T>(arrs: Seq<AwkwardArray<T>>) -> bool {
    forall|k: int| 0 <= k < arrs.len() ==> (#[trigger] arrs[k]).wf()
}

/// The placement of chunk `k` is the length of the content before it.
pub proof fn lemma_base_is_content_len<T>(arrs: Seq<AwkwardArray<T>>, k: int)
    requires
        all_wf(arrs),
        0 <= k <= arrs.len(),
    ensures
        base_at(offsets_of(arrs), k) == concat_all(contents_of(arrs).take(k)).len(),
    decreases k,
{
    if k > 0 {
        lemma_base_is_content_len(arrs, k - 1);
        assert(contents_of(arrs).take(k).drop_last() =~= contents_of(arrs).take(k - 1));
        assert(arrs[k - 1].wf());
    } else {
        assert(contents_of(arrs).take(k) =~= Seq::<Seq<T>>::empty());
    }
}

/// No placement lies past the end of the merged content.
pub proof fn lemma_base_bounded<T>(arrs: Seq<AwkwardArray<T>>, k: int)
    requires
        all_wf(arrs),
        0 <= k <= arrs.len(),
    ensures
        0 <= base_at(offsets_of(arrs), k) <= concat_all(contents_of(arrs)).len(),
{
    lemma_base_is_content_len(arrs, k);
    let c = contents_of(arrs);
    lemma_concat_all_append(c.take(k), c.skip(k));
    assert(c.take(k) + c.skip(k) =~= c);
}

/// Each chunk's offsets, moved to its placement, stay within `i64`.
pub proof fn lemma_shift_fits<T>(arrs: Seq<AwkwardArray<T>>, k: int)
    requires
        all_wf(arrs),
        0 <= k < arrs.len(),
        concat_all(contents_of(arrs)).len() <= i64::MAX,
    ensures
        shift_fits(offsets_of(arrs)[k], base_at(offsets_of(arrs), k)),
        base_at(offsets_of(arrs), k + 1) == base_at(offsets_of(arrs), k) + arrs[k].content@.len(),
{
    lemma_base_bounded(arrs, k);
    lemma_base_bounded(arrs, k + 1);
    assert(arrs[k].wf());
    let o = offsets_of(arrs)[k];
    assert(o.len() >= 1);
    assert forall|i: int| 0 <= i < o.len() implies i64::MIN <= #[trigger] o[i] + base_at(offsets_of(arrs), k) <= i64::MAX by {
        assert(o[0] <= o[i]);
        assert(o[i] <= o[o.len() - 1]);
    }
}

/// The merged offsets of the first `k` chunks delimit their merged content.
pub proof fn lemma_merged_prefix_wf<T>(arrs: Seq<AwkwardArray<T>>, k: int)
    requires
        all_wf(arrs),
        1 <= k <= arrs.len(),
        concat_all(contents_of(arrs)).len() <= i64::MAX,
    ensures
        offsets_wf(base_at(offsets_of(arrs), k), concat_all(shifted_all(offsets_of(arrs)).take(k))),
    decreases k,
{
    let offs = offsets_of(arrs);
    let sh = shifted_all(offs);
    lemma_shift_fits(arrs, k - 1);
    let o = offs[k - 1];
    let b = base_at(offs, k - 1);
    let s = sh[k - 1];
    assert(arrs[k - 1].wf());
    assert(s.len() == o.len());
    assert forall|i: int| 0 <= i < s.len() implies #[trigger] s[i] == o[i] + b by {
        assert(i64::MIN <= o[i] + b <= i64::MAX);
    }
    assert(sh.take(k).drop_last() =~= sh.take(k - 1));
    if k == 1 {
        assert(sh.take(1) =~= seq![s]);
        lemma_concat_all_single(s);
        assert(b == 0);
    } else {
        lemma_merged_prefix_wf(arrs, k - 1);
        let m = concat_all(sh.take(k - 1));
        let ms = concat_all(sh.take(k));
        assert(ms == m + s);
        assert(ms.len() >= 1);
        assert(ms[0] == m[0]);
        assert(ms.last() == s.last());
        assert forall|i: int, j: int| 0 <= i <= j < ms.len() implies ms[i] <= ms[j] by {
            if j < m.len() {
                assert(ms[i] == m[i] && ms[j] == m[j]);
            } else if i >= m.len() {
                assert(ms[i] == s[i - m.len()] && ms[j] == s[j - m.len()]);
                assert(o[i - m.len()] <= o[j - m.len()]);
            } else {
                assert(ms[i] == m[i]);
                assert(m[i] <= m[m.len() - 1]);
                assert(ms[j] == s[j - m.len()]);
                assert(o[0] <= o[j - m.len()]);
            }
        }
    }
}

impl<T: Copy + Sync> AwkwardArray<T> {
    /// Merges per-chunk ragged arrays, in order: the contents are laid end to
    /// end and each chunk's offsets are moved by the length of the content
    /// before it. Every chunk after the first keeps its leading offset, so each
    /// seam holds one empty entry.
    pub fn parallel_concatenate(arrs: &[AwkwardArray<T>]) -> (r: AwkwardArray<T>)
        requires
            all_wf(arrs@),
            concat_all(contents_of(arrs@)).len() <= i64::MAX,
        ensures
            r.content@ == concat_all(contents_of(arrs@)),
            r.cu_seqlens@ == concat_all(shifted_all(offsets_of(arrs@))),
            arrs@.len() >= 1 ==> r.wf(),
    {
        let ghost offs = offsets_of(arrs@);
        let mut content_bufs: Vec<&[T]> = Vec::with_capacity(arrs.len());
        let mut bases: Vec<i64> = Vec::with_capacity(arrs.len());
        let mut acc: i64 = 0;
        let mut k: usize = 0;
        while k < arrs.len()
            invariant
                k <= arrs@.len(),
                all_wf(arrs@),
                concat_all(contents_of(arrs@)).len() <= i64::MAX,
                offs == offsets_of(arrs@),
                content_bufs@.len() == k,
                views(content_bufs@) == contents_of(arrs@).take(k as int),
                bases@.len() == k,
                forall|j: int| 0 <= j < k ==> bases@[j] == base_at(offs, j),
                acc == base_at(offs, k as int),
            decreases arrs@.len() - k,
        {
            proof {
                lemma_shift_fits(arrs@, k as int);
                lemma_base_bounded(arrs@, k as int + 1);
            }
            let ghost old_views = views(content_bufs@);
            let arr = &arrs[k];
            content_bufs.push(arr.content.as_slice());
            bases.push(acc);
            let n: usize = arr.cu_seqlens.len();
            if n > 0 {
                acc = acc + arr.cu_seqlens[n - 1];
            }
            proof {
                assert(content_bufs@[k as int]@ == arrs@[k as int].content@);
                assert forall|i: int| 0 <= i < k + 1 implies #[trigger] views(content_bufs@)[i]
                    == contents_of(arrs@).take(k + 1)[i] by {
                    if i < k {
                        assert(views(content_bufs@)[i] == old_views[i]);
                    }
                }
                assert(views(content_bufs@) =~= contents_of(arrs@).take(k + 1));
            }
            k += 1;
        }
        proof {
            assert(contents_of(arrs@).take(k as int) =~= contents_of(arrs@));
        }
        let content = parallel_concatenate_buffers(content_bufs.as_slice());
        proof {
            assert forall|j: int| 0 <= j < arrs@.len() implies shift_fits(
                arrs@[j].cu_seqlens@,
                bases@[j] as int,
            ) by {
                lemma_shift_fits(arrs@, j);
            }
        }
        let shifted = par_shift(arrs, &bases);
        let mut offset_bufs: Vec<&[i64]> = Vec::with_capacity(shifted.len());
        let mut j: usize = 0;
        while j < shifted.len()
            invariant
                j <= shifted@.len(),
                shifted@.len() == arrs@.len(),
                forall|i: int| 0 <= i < j ==> (#[trigger] views(offset_bufs@)[i]) == shifted@[i]@,
                offset_bufs@.len() == j,
            decreases shifted@.len() - j,
        {
            let ghost old_views = views(offset_bufs@);
            offset_bufs.push(shifted[j].as_slice());
            proof {
                assert forall|i: int| 0 <= i < j + 1 implies (#[trigger] views(offset_bufs@)[i])
                    == shifted@[i]@ by {
                    if i < j {
                        assert(views(offset_bufs@)[i] == old_views[i]);
                    }
                }
            }
            j += 1;
        }
        proof {
            assert(views(offset_bufs@) =~= shifted_all(offs));
        }
        let cu_seqlens = parallel_concatenate_buffers(offset_bufs.as_slice());
        proof {
            if arrs@.len() >= 1 {
                lemma_merged_prefix_wf(arrs@, arrs@.len() as int);
                lemma_base_is_content_len(arrs@, arrs@.len() as int);
                assert(shifted_all(offs).take(arrs@.len() as int) =~= shifted_all(offs));
            }
        }
        AwkwardArray { content, cu_seqlens }
    }
}

} // verus!
