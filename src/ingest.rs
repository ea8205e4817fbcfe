use vstd::prelude::*;
use rayon::iter::{IntoParallelRefIterator, ParallelIterator};
use crate::error::IngestError;
use crate::concat::{concat_all, parallel_concatenate_buffers, views};
use crate::fasta::{
    chunk_outcome, entries_content, entries_offsets, entries_taxa, headers_at_line_starts, join,
    lemma_entries_content_append, lemma_entries_wf, lemma_join_empty, lemma_parse_chunk_split,
    parse_chunk, parse_fasta_chunk, Entry, ParsedFasta,
};
use crate::mapping::CharMapping;
use crate::ragged::{all_wf, contents_of, offsets_of, shifted_all, AwkwardArray};

verus! {

/// Inputs shorter than this are parsed as a single chunk.
pub const MIN_PARALLEL_LEN: usize = 100_000;

/// A half-open byte range `[start, end)` of the input assigned to one task.
#[derive(Debug, Clone, Copy, PartialEq, Eq, Structural)]
pub struct ChunkRange {
    pub start: usize,
    pub end: usize,
}

/// The smaller of `a` and `b`.
pub open spec fn min_int(a: int, b: int) -> int {
    if a <= b {
        a
    } else {
        b
    }
}

/// The number of chunks an input of `len` bytes is split into with `p` workers.
pub open spec fn chunk_count(len: int, p: int) -> int {
    if len < MIN_PARALLEL_LEN {
        1
    } else {
        p
    }
}

/// `ceil(len / n)`: the nominal size of each chunk.
pub open spec fn chunk_size(len: int, n: int) -> int {
    len / n + if len % n == 0 {
        0int
    } else {
        1int
    }
}

/// The `k`-th planned chunk of an input of `len` bytes split into `n` chunks.
pub open spec fn planned_range(len: int, n: int, k: int) -> ChunkRange {
    ChunkRange {
        start: min_int(k * chunk_size(len, n), len) as usize,
        end: min_int((k + 1) * chunk_size(len, n), len) as usize,
    }
}

/// Splits `[0, total_length)` into near-equal ranges, one per worker, or a
/// single range below the parallel threshold.
pub fn plan_chunks(total_length: usize, n_threads: usize) -> (r: Vec<ChunkRange>)
    requires
        n_threads >= 1,
    ensures
        r@.len() == chunk_count(total_length as int, n_threads as int),
        forall|k: int| 0 <= k < r@.len() ==> #[trigger] r@[k] == planned_range(total_length as int, r@.len() as int, k),
        r@[0].start == 0,
        r@.last().end == total_length,
        forall|k: int| 0 <= k < r@.len() ==> (#[trigger] r@[k]).start <= r@[k].end,
        forall|k: int| 0 <= k < r@.len() - 1 ==> (#[trigger] r@[k]).end == r@[k + 1].start,
{
    let n: usize = if total_length < MIN_PARALLEL_LEN {
        1
    } else {
        n_threads
    };
    proof {
        let q = total_length as int / n as int;
        vstd::arithmetic::div_mod::lemma_fundamental_div_mod(total_length as int, n as int);
        if n == 1 {
            assert(total_length as int % n as int == 0);
        } else {
            assert(q < usize::MAX) by (nonlinear_arith)
                requires
                    total_length == n * q + total_length as int % n as int,
                    total_length as int % n as int >= 0,
                    q >= 0,
                    n >= 2,
                    total_length <= usize::MAX,
            ;
        }
    }
    let cs: usize = total_length / n + if total_length % n == 0 {
        0
    } else {
        1
    };
    let ghost len = total_length as int;
    assert(cs == chunk_size(len, n as int));
    let mut out: Vec<ChunkRange> = Vec::with_capacity(n);
    let mut start: usize = 0;
    let mut k: usize = 0;
    while k < n
        invariant
            1 <= n,
            k <= n,
            n == chunk_count(len, n_threads as int),
            cs == chunk_size(len, n as int),
            len == total_length,
            start == min_int(k * cs, len),
            out@.len() == k,
            forall|j: int| 0 <= j < k ==> #[trigger] out@[j] == planned_range(len, n as int, j),
        decreases n - k,
    {
        assert((k + 1) * cs == k * cs + cs) by (nonlinear_arith);
        assert(k * cs <= (k + 1) * cs) by (nonlinear_arith)
            requires
                cs >= 0,
        ;
        let end: usize = if total_length - start > cs {
            start + cs
        } else {
            total_length
        };
        out.push(ChunkRange { start, end });
        start = end;
        k += 1;
    }
    proof {
        lemma_planned_ranges_tile(len, n as int);
    }
    out
}

/// Relies on rayon::current_num_threads: the number of workers of the current
/// pool, which rayon never builds empty.
#[verifier::external_body]
fn current_num_threads() -> (r: usize)
    ensures
        r >= 1,
{
    rayon::current_num_threads()
}

/// Relies on rayon's `par_iter`, `map` and `collect`: one result per range,
/// collected in the ranges' order.
#[verifier::external_body]
fn par_parse_chunks(text: &[u8], ranges: &Vec<ChunkRange>, mapping: &CharMapping) -> (r: Vec<
    Result<ParsedFasta, IngestError>,
>)
    requires
        text@.len() <= i64::MAX,
    ensures
        r@.len() == ranges@.len(),
        forall|k: int|
            0 <= k < ranges@.len() ==> chunk_outcome(
                text@,
                ranges@[k].start as int,
                ranges@[k].end as int,
                *mapping,
                #[trigger] r@[k],
            ),
{
    ranges.par_iter().map(|c| parse_fasta_chunk(text, c.start, c.end, mapping)).collect()
}

/// What each planned chunk of `t` parses to, in chunk order.
pub open spec fn planned_results(t: Seq<u8>, m: CharMapping, p: int) -> Seq<Result<Seq<Entry>, int>> {
    let n = chunk_count(t.len() as int, p);
    Seq::new(
        n as nat,
        |k: int|
            parse_chunk(t, planned_range(t.len() as int, n, k).start as int, planned_range(t.len() as int, n, k).end as int, m),
    )
}

/// The chunks' entries when every chunk parsed, or the error of the first
/// chunk that failed.
pub open spec fn join_all(rs: Seq<Result<Seq<Entry>, int>>) -> Result<Seq<Seq<Entry>>, int>
    decreases rs.len(),
{
    if rs.len() == 0 {
        Ok(Seq::empty())
    } else {
        match join_all(rs.drop_last()) {
            Err(p) => Err(p),
            Ok(v) => match rs.last() {
                Err(p) => Err(p),
                Ok(es) => Ok(v.push(es)),
            },
        }
    }
}

/// The table that a five-byte mapping vector gives.
pub open spec fn mapping_of(v: Seq<u8>) -> CharMapping {
    CharMapping { a: v[0], t: v[1], c: v[2], g: v[3], all_other: v[4] }
}

/// The merged content of per-chunk entries.
pub open spec fn merged_content(ess: Seq<Seq<Entry>>) -> Seq<u8> {
    concat_all(ess.map_values(|es: Seq<Entry>| entries_content(es)))
}

/// `pf` is the merge of the per-chunk entries `ess`.
pub open spec fn merged_holds(pf: ParsedFasta, ess: Seq<Seq<Entry>>) -> bool {
    &&& pf.sequences.content@ == merged_content(ess)
    &&& pf.sequences.cu_seqlens@ == concat_all(
        shifted_all(ess.map_values(|es: Seq<Entry>| entries_offsets(es))),
    )
    &&& pf.taxon_ids@ == concat_all(ess.map_values(|es: Seq<Entry>| entries_taxa(es)))
}

/// What ingesting `t` with table vector `v` and `p` workers gives.
pub open spec fn ingest_outcome(t: Seq<u8>, v: Seq<u8>, p: int, r: Result<ParsedFasta, IngestError>) -> bool {
    if v.len() != 5 {
        r == Err::<ParsedFasta, IngestError>(IngestError::InvalidMapping(v.len() as usize))
    } else {
        match join_all(planned_results(t, mapping_of(v), p)) {
            Err(pos) => r == Err::<ParsedFasta, IngestError>(IngestError::MalformedHeader(pos as usize)),
            Ok(ess) => if merged_content(ess).len() > i64::MAX {
                r == Err::<ParsedFasta, IngestError>(IngestError::ContentOverflow)
            } else {
                r matches Ok(pf) && merged_holds(pf, ess) && pf.sequences.wf()
                    && pf.sequences.cu_seqlens@.len() == pf.taxon_ids@.len() + ess.len()
            },
        }
    }
}

/// Once a prefix of the chunks holds an error, so does the whole list.
proof fn lemma_join_all_err(rs: Seq<Result<Seq<Entry>, int>>, k: int, p: int)
    requires
        0 <= k <= rs.len(),
        join_all(rs.take(k)) == Err::<Seq<Seq<Entry>>, int>(p),
    ensures
        join_all(rs) == Err::<Seq<Seq<Entry>>, int>(p),
    decreases rs.len(),
{
    if k == rs.len() {
        assert(rs.take(k) =~= rs);
    } else {
        assert(rs.drop_last().take(k) =~= rs.take(k));
        lemma_join_all_err(rs.drop_last(), k, p);
    }
}

/// Concatenating buffers each one longer than its partner gives one more
/// element per buffer.
proof fn lemma_concat_len_plus_one<X, Y>(a: Seq<Seq<X>>, b: Seq<Seq<Y>>)
    requires
        a.len() == b.len(),
        forall|k: int| 0 <= k < a.len() ==> (#[trigger] a[k]).len() == b[k].len() + 1,
    ensures
        concat_all(a).len() == concat_all(b).len() + a.len(),
    decreases a.len(),
{
    if a.len() > 0 {
        lemma_concat_len_plus_one(a.drop_last(), b.drop_last());
    }
}

/// Parses the whole input as `n_threads` chunks in parallel and merges the
/// chunk results in chunk order.
pub fn parse_fasta_with_threads(data: &[u8], mapping: &[u8], n_threads: usize) -> (r: Result<
    ParsedFasta,
    IngestError,
>)
    requires
        n_threads >= 1,
        data@.len() <= i64::MAX,
    ensures
        ingest_outcome(data@, mapping@, n_threads as int, r),
{
    let cm = match CharMapping::from_mapping_vector(mapping) {
        Ok(c) => c,
        Err(e) => {
            return Err(e);
        },
    };
    let ghost t = data@;
    assert(cm == mapping_of(mapping@));
    let ghost rs = planned_results(t, cm, n_threads as int);
    let ranges = plan_chunks(data.len(), n_threads);
    let mut results = par_parse_chunks(data, &ranges, &cm);
    let ghost all = results@;
    let n: usize = results.len();
    let mut arrays: Vec<AwkwardArray<u8>> = Vec::with_capacity(n);
    let mut taxa: Vec<Vec<u64>> = Vec::with_capacity(n);
    let ghost mut ess: Seq<Seq<Entry>> = Seq::empty();
    let mut total: u128 = 0;
    let mut overflow: bool = false;
    let mut k: usize = 0;
    while k < n
        invariant
            n == all.len(),
            n == rs.len(),
            ranges@.len() == n,
            n >= 1,
            k <= n,
            t.len() <= i64::MAX,
            results@ == all.skip(k as int),
            forall|j: int|
                0 <= j < n ==> chunk_outcome(
                    t,
                    ranges@[j].start as int,
                    ranges@[j].end as int,
                    cm,
                    #[trigger] all[j],
                ),
            forall|j: int| 0 <= j < n ==> #[trigger] ranges@[j] == planned_range(t.len() as int, n as int, j),
            rs == planned_results(t, cm, n_threads as int),
            cm == mapping_of(mapping@),
            mapping@.len() == 5,
            t == data@,
            join_all(rs.take(k as int)) == Ok::<Seq<Seq<Entry>>, int>(ess),
            ess.len() == k,
            arrays@.len() == k,
            taxa@.len() == k,
            forall|j: int|
                0 <= j < k ==> (#[trigger] arrays@[j]).content@ == entries_content(ess[j])
                    && arrays@[j].cu_seqlens@ == entries_offsets(ess[j]) && taxa@[j]@ == entries_taxa(ess[j])
                    && entries_content(ess[j]).len() <= t.len(),
            !overflow ==> total == merged_content(ess).len(),
            overflow ==> merged_content(ess).len() > i64::MAX,
            total <= i64::MAX,
        decreases n - k,
    {
        let res = results.remove(0);
        assert(res == all[k as int]);
        assert(rs[k as int] == parse_chunk(t, ranges@[k as int].start as int, ranges@[k as int].end as int, cm));
        assert(rs.take(k + 1).drop_last() =~= rs.take(k as int));
        match res {
            Err(e) => {
                proof {
                    assert(rs.take(k + 1).last() == rs[k as int]);
                    assert(chunk_outcome(t, ranges@[k as int].start as int, ranges@[k as int].end as int, cm, all[k as int]));
                    lemma_join_all_err(rs, k + 1, rs[k as int]->Err_0);
                }
                return Err(e);
            },
            Ok(pf) => {
                assert(rs.take(k + 1).last() == rs[k as int]);
                let ghost es = rs[k as int]->Ok_0;
                let ghost prev = ess;
                proof {
                    ess = ess.push(es);
                    assert(ess.drop_last() =~= prev);
                    assert(ess.map_values(|es: Seq<Entry>| entries_content(es)).drop_last() =~= prev.map_values(
                        |es: Seq<Entry>| entries_content(es),
                    ));
                    assert(merged_content(ess).len() == merged_content(prev).len() + entries_content(es).len());
                }
                let len: usize = pf.sequences.content.len();
                if !overflow {
                    if total + len as u128 > 0x7fff_ffff_ffff_ffffu128 {
                        overflow = true;
                    } else {
                        total = total + len as u128;
                    }
                }
                arrays.push(pf.sequences);
                taxa.push(pf.taxon_ids);
            },
        }
        k += 1;
    }
    proof {
        assert(rs.take(n as int) =~= rs);
    }
    if overflow {
        return Err(IngestError::ContentOverflow);
    }
    proof {
        assert forall|j: int| 0 <= j < n implies (#[trigger] arrays@[j]).wf() by {
            assert(arrays@[j].content@ == entries_content(ess[j]));
            lemma_entries_wf(ess[j]);
        }
        assert(contents_of(arrays@) =~= ess.map_values(|es: Seq<Entry>| entries_content(es)));
        assert(offsets_of(arrays@) =~= ess.map_values(|es: Seq<Entry>| entries_offsets(es)));
    }
    let sequences = AwkwardArray::parallel_concatenate(arrays.as_slice());
    proof {
        assert forall|i: int| 0 <= i < n implies (#[trigger] taxa@[i])@ == entries_taxa(ess[i]) by {
            assert(arrays@[i].content@ == entries_content(ess[i]));
        }
        let offs = ess.map_values(|es: Seq<Entry>| entries_offsets(es));
        let tx = ess.map_values(|es: Seq<Entry>| entries_taxa(es));
        assert forall|i: int| 0 <= i < n implies (#[trigger] shifted_all(offs)[i]).len() == tx[i].len() + 1 by {
            assert(arrays@[i].content@ == entries_content(ess[i]));
            lemma_entries_wf(ess[i]);
        }
        lemma_concat_len_plus_one(shifted_all(offs), tx);
    }
    let mut taxa_bufs: Vec<&[u64]> = Vec::with_capacity(n);
    let mut j: usize = 0;
    while j < n
        invariant
            j <= n,
            taxa@.len() == n,
            ess.len() == n,
            forall|i: int| 0 <= i < n ==> (#[trigger] taxa@[i])@ == entries_taxa(ess[i]),
            concat_all(shifted_all(ess.map_values(|es: Seq<Entry>| entries_offsets(es)))).len() == concat_all(
                ess.map_values(|es: Seq<Entry>| entries_taxa(es)),
            ).len() + n,
            taxa_bufs@.len() == j,
            forall|i: int| 0 <= i < j ==> (#[trigger] views(taxa_bufs@)[i]) == taxa@[i]@,
        decreases n - j,
    {
        let ghost old_views = views(taxa_bufs@);
        taxa_bufs.push(taxa[j].as_slice());
        proof {
            assert forall|i: int| 0 <= i < j + 1 implies (#[trigger] views(taxa_bufs@)[i]) == taxa@[i]@ by {
                if i < j {
                    assert(views(taxa_bufs@)[i] == old_views[i]);
                }
            }
        }
        j += 1;
    }
    proof {
        assert(views(taxa_bufs@) =~= ess.map_values(|es: Seq<Entry>| entries_taxa(es)));
    }
    let taxon_ids = parallel_concatenate_buffers(taxa_bufs.as_slice());
    Ok(ParsedFasta { sequences, taxon_ids })
}

/// The planned ranges tile `[0, len)` in order.
pub proof fn lemma_planned_ranges_tile(len: int, n: int)
    requires
        0 <= len <= usize::MAX,
        n >= 1,
    ensures
        planned_range(len, n, 0).start == 0,
        planned_range(len, n, n - 1).end == len,
        forall|k: int| 0 <= k < n ==> (#[trigger] planned_range(len, n, k)).start <= planned_range(len, n, k).end,
        forall|k: int| 0 <= k < n - 1 ==> (#[trigger] planned_range(len, n, k)).end == planned_range(len, n, k + 1).start,
{
    let cs = chunk_size(len, n);
    let q = len / n;
    let rm = len % n;
    vstd::arithmetic::div_mod::lemma_fundamental_div_mod(len, n);
    assert(q >= 0) by (nonlinear_arith)
        requires
            len == n * q + rm,
            0 <= rm < n,
            len >= 0,
    ;
    assert(n * cs >= len) by (nonlinear_arith)
        requires
            len == n * q + rm,
            0 <= rm < n,
            cs == q + if rm == 0 {
                0int
            } else {
                1int
            },
    ;
    assert(0 * cs == 0);
    assert forall|k: int| 0 <= k < n implies (#[trigger] planned_range(len, n, k)).start <= planned_range(len, n, k).end by {
        assert(k * cs <= (k + 1) * cs) by (nonlinear_arith)
            requires
                cs >= 0,
        ;
    }
}

/// Every chunk's entries, laid end to end; the error of the first chunk that
/// failed.
pub open spec fn join_flat(rs: Seq<Result<Seq<Entry>, int>>) -> Result<Seq<Entry>, int>
    decreases rs.len(),
{
    if rs.len() == 0 {
        Ok(Seq::empty())
    } else {
        join(join_flat(rs.drop_last()), rs.last())
    }
}

/// Joining per-chunk entry lists and flattening them agree.
proof fn lemma_join_all_flat(rs: Seq<Result<Seq<Entry>, int>>)
    ensures
        join_all(rs) matches Ok(ess) ==> join_flat(rs) == Ok::<Seq<Entry>, int>(concat_all(ess)),
        join_all(rs) matches Err(p) ==> join_flat(rs) == Err::<Seq<Entry>, int>(p),
    decreases rs.len(),
{
    if rs.len() > 0 {
        lemma_join_all_flat(rs.drop_last());
        if let Ok(ess) = join_all(rs) {
            assert(ess.drop_last() =~= join_all(rs.drop_last())->Ok_0);
        }
    }
}

/// The merged content of per-chunk entries is the content of all the entries.
proof fn lemma_merged_content_flat(ess: Seq<Seq<Entry>>)
    ensures
        merged_content(ess) == entries_content(concat_all(ess)),
    decreases ess.len(),
{
    if ess.len() == 0 {
        assert(merged_content(ess) =~= Seq::<u8>::empty());
    } else {
        let p = ess.drop_last();
        lemma_merged_content_flat(p);
        assert(ess.map_values(|es: Seq<Entry>| entries_content(es)).drop_last() =~= p.map_values(
            |es: Seq<Entry>| entries_content(es),
        ));
        lemma_entries_content_append(concat_all(p), ess.last());
    }
}

/// The first `k + 1` planned chunks read exactly what one chunk over
/// `[0, end of chunk k)` reads.
proof fn lemma_planned_prefix(t: Seq<u8>, m: CharMapping, p: int, k: int)
    requires
        headers_at_line_starts(t),
        t.len() <= usize::MAX,
        p >= 1,
        0 <= k < chunk_count(t.len() as int, p),
    ensures
        join_flat(planned_results(t, m, p).take(k + 1)) == parse_chunk(
            t,
            0,
            planned_range(t.len() as int, chunk_count(t.len() as int, p), k).end as int,
            m,
        ),
    decreases k,
{
    let n = chunk_count(t.len() as int, p);
    let rs = planned_results(t, m, p);
    lemma_planned_ranges_tile(t.len() as int, n);
    assert(rs.take(k + 1).drop_last() =~= rs.take(k));
    if k == 0 {
        assert(rs.take(0) =~= Seq::<Result<Seq<Entry>, int>>::empty());
        lemma_join_empty(rs[0]);
    } else {
        lemma_planned_prefix(t, m, p, k - 1);
        assert(planned_range(t.len() as int, n, k - 1).end == planned_range(t.len() as int, n, k).start);
        lemma_parse_chunk_split(
            t,
            0,
            planned_range(t.len() as int, n, k).start as int,
            planned_range(t.len() as int, n, k).end as int,
            m,
        );
    }
}

/// However many chunks the input is split into, the chunks together read
/// what a single chunk over the whole input reads, provided every header
/// marker starts a line.
pub proof fn lemma_planned_results_flat(t: Seq<u8>, m: CharMapping, p: int)
    requires
        headers_at_line_starts(t),
        t.len() <= usize::MAX,
        p >= 1,
    ensures
        join_flat(planned_results(t, m, p)) == parse_chunk(t, 0, t.len() as int, m),
{
    let n = chunk_count(t.len() as int, p);
    lemma_planned_ranges_tile(t.len() as int, n);
    lemma_planned_prefix(t, m, p, n - 1);
    assert(planned_results(t, m, p).take(n) =~= planned_results(t, m, p));
}

/// Ingesting with any number of workers gives byte for byte the content of a
/// single-chunk ingestion, and fails exactly when it fails, with the same
/// error, provided every header marker starts a line: merging neither drops,
/// reorders nor duplicates content.
pub proof fn lemma_chunked_content_matches_single(
    t: Seq<u8>,
    v: Seq<u8>,
    p: int,
    single: Result<ParsedFasta, IngestError>,
    chunked: Result<ParsedFasta, IngestError>,
)
    requires
        headers_at_line_starts(t),
        t.len() <= usize::MAX,
        p >= 1,
        ingest_outcome(t, v, 1, single),
        ingest_outcome(t, v, p, chunked),
    ensures
        single is Ok <==> chunked is Ok,
        single is Err ==> single == chunked,
        chunked matches Ok(c) ==> single matches Ok(s) && c.sequences.content@ == s.sequences.content@,
{
    if v.len() == 5 {
        let m = mapping_of(v);
        let r1 = planned_results(t, m, 1);
        let rp = planned_results(t, m, p);
        lemma_planned_results_flat(t, m, 1);
        lemma_planned_results_flat(t, m, p);
        lemma_join_all_flat(r1);
        lemma_join_all_flat(rp);
        if let (Ok(e1), Ok(ep)) = (join_all(r1), join_all(rp)) {
            lemma_merged_content_flat(e1);
            lemma_merged_content_flat(ep);
        }
    }
}

/// A single-chunk ingestion has exactly one more offset than taxon ids.
pub proof fn lemma_single_chunk_taxa_align(t: Seq<u8>, v: Seq<u8>, r: Result<ParsedFasta, IngestError>)
    requires
        ingest_outcome(t, v, 1, r),
    ensures
        r matches Ok(pf) ==> pf.sequences.cu_seqlens@.len() == pf.taxon_ids@.len() + 1,
{
    if v.len() == 5 {
        if let Ok(ess) = join_all(planned_results(t, mapping_of(v), 1)) {
            assert(ess.len() == 1) by {
                lemma_join_all_len(planned_results(t, mapping_of(v), 1));
            }
        }
    }
}

/// When every chunk parsed, there is one entry list per chunk.
proof fn lemma_join_all_len(rs: Seq<Result<Seq<Entry>, int>>)
    ensures
        join_all(rs) matches Ok(ess) ==> ess.len() == rs.len(),
    decreases rs.len(),
{
    if rs.len() > 0 {
        lemma_join_all_len(rs.drop_last());
    }
}

/// Parses the whole input with one chunk per worker of the current pool.
/// Below the parallel threshold the worker count plays no part.
pub fn parse_fasta(data: &[u8], mapping: &[u8]) -> (r: Result<ParsedFasta, IngestError>)
    requires
        data@.len() <= i64::MAX,
    ensures
        exists|p: int| p >= 1 && ingest_outcome(data@, mapping@, p, r),
        data@.len() < MIN_PARALLEL_LEN ==> ingest_outcome(data@, mapping@, 1, r),
{
    let n_threads = current_num_threads();
    let r = parse_fasta_with_threads(data, mapping, n_threads);
    proof {
        if data@.len() < MIN_PARALLEL_LEN && mapping@.len() == 5 {
            assert(planned_results(data@, mapping_of(mapping@), n_threads as int) =~= planned_results(
                data@,
                mapping_of(mapping@),
                1,
            ));
        }
    }
    r
}

} // verus!
