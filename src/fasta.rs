use vstd::prelude::*;
use crate::error::IngestError;
use crate::mapping::CharMapping;
use crate::ragged::{offsets_wf, AwkwardArray};

verus! {

/// The header marker `>`.
pub const HEADER: u8 = 0x3e;

/// The line terminator `\n`.
pub const NEWLINE: u8 = 0x0a;

/// The optional sign `+` in front of a header's digits.
pub const PLUS: u8 = 0x2b;

/// One logical entry: a translated line and the taxon id of its record.
pub type Entry = (Seq<u8>, u64);

/// The first position at or after `i` that holds a header marker, or `i`
/// itself once it is at or past the end.
pub open spec fn skip_to_header(t: Seq<u8>, i: int) -> int
    decreases t.len() - i,
{
    if i >= t.len() || t[i] == HEADER {
        i
    } else {
        skip_to_header(t, i + 1)
    }
}

/// The first position at or after `i` that holds a newline, or the end.
pub open spec fn line_end(t: Seq<u8>, i: int) -> int
    decreases t.len() - i,
{
    if i >= t.len() || t[i] == NEWLINE {
        i
    } else {
        line_end(t, i + 1)
    }
}

/// A line runs from `i` up to its newline, or to the end, with no newline
/// before that.
pub proof fn lemma_line_end(t: Seq<u8>, i: int)
    requires
        0 <= i,
    ensures
        i <= line_end(t, i),
        i <= t.len() ==> line_end(t, i) <= t.len(),
        line_end(t, i) < t.len() ==> t[line_end(t, i)] == NEWLINE,
        forall|k: int| i <= k < line_end(t, i) ==> t[k] != NEWLINE,
    decreases t.len() - i,
{
    if !(i >= t.len() || t[i] == NEWLINE) {
        lemma_line_end(t, i + 1);
    }
}

/// Skipping stops at the first header marker at or after `i`, or at the end.
pub proof fn lemma_skip_to_header(t: Seq<u8>, i: int)
    requires
        0 <= i,
    ensures
        i <= skip_to_header(t, i),
        i <= t.len() ==> skip_to_header(t, i) <= t.len(),
        skip_to_header(t, i) < t.len() ==> t[skip_to_header(t, i)] == HEADER,
        forall|k: int| i <= k < skip_to_header(t, i) ==> t[k] != HEADER,
    decreases t.len() - i,
{
    if !(i >= t.len() || t[i] == HEADER) {
        lemma_skip_to_header(t, i + 1);
    }
}

/// `b` is one of the ASCII digits `0` to `9`.
pub open spec fn is_digit(b: u8) -> bool {
    0x30u8 <= b <= 0x39u8
}

/// The number that a string of decimal digits writes.
pub open spec fn digits_value(s: Seq<u8>) -> int
    decreases s.len(),
{
    if s.len() == 0 {
        0
    } else {
        digits_value(s.drop_last()) * 10 + (s.last() - 0x30u8)
    }
}

/// The digits of a header, without its optional leading `+`.
pub open spec fn header_digits(s: Seq<u8>) -> Seq<u8> {
    if s.len() > 0 && s[0] == PLUS {
        s.skip(1)
    } else {
        s
    }
}

/// The taxon id that header text `s` gives: a non-empty run of decimal
/// digits, optionally signed with `+`, whose value fits in a `u64`.
pub open spec fn header_id(s: Seq<u8>) -> Option<u64> {
    let d = header_digits(s);
    if d.len() > 0 && (forall|k: int| 0 <= k < d.len() ==> is_digit(#[trigger] d[k]))
        && digits_value(d) <= u64::MAX {
        Some(digits_value(d) as u64)
    } else {
        None
    }
}

/// Each byte of `s` translated.
pub open spec fn translate_seq(m: CharMapping, s: Seq<u8>) -> Seq<u8> {
    s.map_values(|b: u8| m.translate_spec(b))
}

/// Entries of `a` followed by those of `b`; the first error wins.
pub open spec fn join(a: Result<Seq<Entry>, int>, b: Result<Seq<Entry>, int>) -> Result<Seq<Entry>, int> {
    match a {
        Err(p) => Err(p),
        Ok(x) => match b {
            Err(p) => Err(p),
            Ok(y) => Ok(x + y),
        },
    }
}

/// The entries read from line start `i` on, for a chunk whose ownership ends
/// at `e`, with `cur` the taxon id of the record being read. A header at or
/// past `e` ends the chunk; a header before it sets the taxon id of the lines
/// that follow; every other line is one entry. A header whose text is no
/// valid id fails with the header's position.
pub open spec fn parse_records(t: Seq<u8>, i: int, e: int, m: CharMapping, cur: u64) -> Result<Seq<Entry>, int>
    decreases t.len() + 1 - i
    via parse_records_decreases
{
    if i < 0 || i >= t.len() {
        Ok(Seq::empty())
    } else {
        let le = line_end(t, i);
        if t[i] == HEADER {
            if i >= e {
                Ok(Seq::empty())
            } else {
                match header_id(t.subrange(i + 1, le)) {
                    None => Err(i),
                    Some(id) => parse_records(t, le + 1, e, m, id),
                }
            }
        } else {
            join(Ok(seq![(translate_seq(m, t.subrange(i, le)), cur)]), parse_records(t, le + 1, e, m, cur))
        }
    }
}

#[via_fn]
proof fn parse_records_decreases(t: Seq<u8>, i: int, e: int, m: CharMapping, cur: u64) {
    if 0 <= i {
        lemma_line_end(t, i);
    }
}

/// The entries that the chunk `[s, e)` owns: reading starts at its first
/// header and goes on past `e` until a header at or past `e`.
pub open spec fn parse_chunk(t: Seq<u8>, s: int, e: int, m: CharMapping) -> Result<Seq<Entry>, int> {
    parse_records(t, skip_to_header(t, s), e, m, 0)
}

/// The content buffer of a list of entries.
pub open spec fn entries_content(es: Seq<Entry>) -> Seq<u8>
    decreases es.len(),
{
    if es.len() == 0 {
        Seq::empty()
    } else {
        entries_content(es.drop_last()) + es.last().0
    }
}

/// The offsets buffer of a list of entries.
pub open spec fn entries_offsets(es: Seq<Entry>) -> Seq<i64>
    decreases es.len(),
{
    if es.len() == 0 {
        seq![0i64]
    } else {
        entries_offsets(es.drop_last()).push(entries_content(es).len() as i64)
    }
}

/// The taxon table of a list of entries.
pub open spec fn entries_taxa(es: Seq<Entry>) -> Seq<u64> {
    es.map_values(|x: Entry| x.1)
}

/// The offsets of a list of entries delimit its content, and there is one
/// taxon id per entry.
pub proof fn lemma_entries_wf(es: Seq<Entry>)
    requires
        entries_content(es).len() <= i64::MAX,
    ensures
        offsets_wf(entries_content(es).len() as int, entries_offsets(es)),
        entries_offsets(es).len() == es.len() + 1,
        entries_taxa(es).len() == es.len(),
    decreases es.len(),
{
    if es.len() > 0 {
        let p = es.drop_last();
        assert(entries_content(es) == entries_content(p) + es.last().0);
        lemma_entries_wf(p);
        let o = entries_offsets(p);
        let o2 = entries_offsets(es);
        assert(o2 == o.push(entries_content(es).len() as i64));
        assert forall|i: int, j: int| 0 <= i <= j < o2.len() implies o2[i] <= o2[j] by {
            if j < o.len() {
                assert(o2[i] == o[i] && o2[j] == o[j]);
            } else {
                assert(o2[i] <= o[o.len() - 1] || i == j);
            }
        }
    }
}

/// A run of digits writes a non-negative number.
pub proof fn lemma_digits_value_nonneg(s: Seq<u8>)
    requires
        forall|k: int| 0 <= k < s.len() ==> is_digit(#[trigger] s[k]),
    ensures
        digits_value(s) >= 0,
    decreases s.len(),
{
    if s.len() > 0 {
        lemma_digits_value_nonneg(s.drop_last());
    }
}

/// A prefix of a run of digits writes no larger a number than the whole run.
pub proof fn lemma_digits_prefix_le(s: Seq<u8>, j: int)
    requires
        forall|k: int| 0 <= k < s.len() ==> is_digit(#[trigger] s[k]),
        0 <= j <= s.len(),
    ensures
        digits_value(s.take(j)) <= digits_value(s),
    decreases s.len(),
{
    if j == s.len() {
        assert(s.take(j) =~= s);
    } else {
        let p = s.drop_last();
        assert(p.take(j) =~= s.take(j));
        lemma_digits_prefix_le(p, j);
        lemma_digits_value_nonneg(p);
    }
}

/// Reads the taxon id written in `text[start..end]`.
pub fn parse_header(text: &[u8], start: usize, end: usize) -> (r: Option<u64>)
    requires
        start <= end <= text@.len(),
    ensures
        r == header_id(text@.subrange(start as int, end as int)),
{
    let ghost s = text@.subrange(start as int, end as int);
    let mut k: usize = start;
    if k < end && text[k] == PLUS {
        k += 1;
    }
    let k0: usize = k;
    let ghost d = text@.subrange(k0 as int, end as int);
    assert(header_digits(s) =~= d);
    if k == end {
        return None;
    }
    let mut acc: u64 = 0;
    while k < end
        invariant
            start <= k0 <= k <= end <= text@.len(),
            d == text@.subrange(k0 as int, end as int),
            header_digits(text@.subrange(start as int, end as int)) == d,
            d.len() > 0,
            forall|j: int| k0 <= j < k ==> is_digit(#[trigger] text@[j]),
            acc == digits_value(text@.subrange(k0 as int, k as int)),
        decreases end - k,
    {
        let b: u8 = text[k];
        if b < 0x30u8 || b > 0x39u8 {
            assert(!is_digit(d[k - k0]));
            return None;
        }
        let v: u128 = acc as u128 * 10 + (b - 0x30u8) as u128;
        proof {
            let p = text@.subrange(k0 as int, k + 1);
            assert(p.drop_last() =~= text@.subrange(k0 as int, k as int));
            assert(digits_value(p) == v);
        }
        if v > 0xffff_ffff_ffff_ffffu128 {
            proof {
                if forall|j: int| 0 <= j < d.len() ==> is_digit(#[trigger] d[j]) {
                    lemma_digits_prefix_le(d, k + 1 - k0);
                    assert(d.take(k + 1 - k0) =~= text@.subrange(k0 as int, k + 1));
                }
            }
            return None;
        }
        acc = v as u64;
        k += 1;
    }
    proof {
        assert(text@.subrange(k0 as int, k as int) =~= d);
        assert forall|j: int| 0 <= j < d.len() implies is_digit(#[trigger] d[j]) by {
            assert(d[j] == text@[k0 + j]);
        }
    }
    Some(acc)
}

/// Every header marker of `t` starts a line.
pub open spec fn headers_at_line_starts(t: Seq<u8>) -> bool {
    forall|p: int| 0 < p < t.len() && #[trigger] t[p] == HEADER ==> t[p - 1] == NEWLINE
}

/// With no header marker in `[m, q)` and one at `q` (or the end there),
/// the first header at or after `m` is at `q`.
pub proof fn lemma_skip_reaches(t: Seq<u8>, m: int, q: int)
    requires
        0 <= m <= q <= t.len(),
        forall|x: int| m <= x < q ==> t[x] != HEADER,
        q == t.len() || t[q] == HEADER,
    ensures
        skip_to_header(t, m) == q,
    decreases q - m,
{
    if m < q {
        lemma_skip_reaches(t, m + 1, q);
    }
}

/// A line holds no header marker past its first byte, nor at its newline.
pub proof fn lemma_no_header_in_line(t: Seq<u8>, i: int)
    requires
        headers_at_line_starts(t),
        0 <= i < t.len(),
    ensures
        forall|x: int| i < x <= line_end(t, i) && x < t.len() ==> t[x] != HEADER,
{
    lemma_line_end(t, i);
    let le = line_end(t, i);
    assert forall|x: int| i < x <= le && x < t.len() implies t[x] != HEADER by {
        if x < le {
            assert(t[x - 1] != NEWLINE);
        }
    }
}

/// Joining chunk results is associative.
proof fn lemma_join_assoc(a: Result<Seq<Entry>, int>, b: Result<Seq<Entry>, int>, c: Result<Seq<Entry>, int>)
    ensures
        join(a, join(b, c)) == join(join(a, b), c),
{
    if let (Ok(x), Ok(y), Ok(z)) = (a, b, c) {
        assert(x + (y + z) =~= (x + y) + z);
    }
}

/// No entries is the unit of joining.
pub proof fn lemma_join_empty(a: Result<Seq<Entry>, int>)
    ensures
        join(Ok(Seq::empty()), a) == a,
        join(a, Ok(Seq::empty())) == a,
{
    if let Ok(x) = a {
        assert(Seq::<Entry>::empty() + x =~= x);
        assert(x + Seq::<Entry>::empty() =~= x);
    }
}

/// Reading on from line start `i` with ownership ending at `e` is the same as
/// reading with ownership ending at `m`, then reading the part owned from `m`.
proof fn lemma_parse_records_split(t: Seq<u8>, i: int, m: int, e: int, mm: CharMapping, c: u64)
    requires
        headers_at_line_starts(t),
        0 <= i,
        0 <= m <= e,
        i <= m || forall|x: int| m <= x < i && x < t.len() ==> t[x] != HEADER,
    ensures
        parse_records(t, i, e, mm, c) == join(
            parse_records(t, i, m, mm, c),
            parse_records(t, skip_to_header(t, m), e, mm, 0),
        ),
    decreases t.len() + 1 - i,
{
    lemma_skip_to_header(t, m);
    if i >= t.len() {
        if m < t.len() {
            lemma_skip_reaches(t, m, t.len() as int);
        }
        lemma_join_empty(Ok(Seq::empty()));
    } else {
        lemma_line_end(t, i);
        lemma_no_header_in_line(t, i);
        let le = line_end(t, i);
        if t[i] == HEADER {
            if i >= m {
                lemma_skip_reaches(t, m, i);
                lemma_join_empty(parse_records(t, i, e, mm, 0));
            } else {
                match header_id(t.subrange(i + 1, le)) {
                    None => {},
                    Some(id) => {
                        lemma_parse_records_split(t, le + 1, m, e, mm, id);
                    },
                }
            }
        } else {
            let x: Entry = (translate_seq(mm, t.subrange(i, le)), c);
            lemma_parse_records_split(t, le + 1, m, e, mm, c);
            lemma_join_assoc(
                Ok(seq![x]),
                parse_records(t, le + 1, m, mm, c),
                parse_records(t, skip_to_header(t, m), e, mm, 0),
            );
        }
    }
}

/// Splitting a chunk at `m` splits its entries there: the chunk `[s, e)`
/// reads exactly the entries of `[s, m)` followed by those of `[m, e)`.
pub proof fn lemma_parse_chunk_split(t: Seq<u8>, s: int, m: int, e: int, mm: CharMapping)
    requires
        headers_at_line_starts(t),
        0 <= s <= m <= e,
    ensures
        parse_chunk(t, s, e, mm) == join(parse_chunk(t, s, m, mm), parse_chunk(t, m, e, mm)),
{
    lemma_skip_to_header(t, s);
    lemma_parse_records_split(t, skip_to_header(t, s), m, e, mm, 0);
}

/// The content of two runs of entries is the content of each, in order.
pub proof fn lemma_entries_content_append(a: Seq<Entry>, b: Seq<Entry>)
    ensures
        entries_content(a + b) == entries_content(a) + entries_content(b),
    decreases b.len(),
{
    if b.len() == 0 {
        assert(a + b =~= a);
        assert(entries_content(a) + entries_content(b) =~= entries_content(a));
    } else {
        lemma_entries_content_append(a, b.drop_last());
        assert((a + b).drop_last() =~= a + b.drop_last());
        assert(entries_content(a + b) =~= entries_content(a) + entries_content(b));
    }
}

/// A chunk's local result: its ragged array and one taxon id per entry.
#[derive(Debug)]
pub struct ParsedFasta {
    pub sequences: AwkwardArray<u8>,
    pub taxon_ids: Vec<u64>,
}

impl ParsedFasta {
    /// The chunk result holds exactly the entries `es`.
    pub open spec fn holds(&self, es: Seq<Entry>) -> bool {
        &&& self.sequences.content@ == entries_content(es)
        &&& self.sequences.cu_seqlens@ == entries_offsets(es)
        &&& self.taxon_ids@ == entries_taxa(es)
    }
}

/// `r` is what parsing the chunk `[s, e)` of `t` gives.
pub open spec fn chunk_outcome(t: Seq<u8>, s: int, e: int, m: CharMapping, r: Result<ParsedFasta, IngestError>) -> bool {
    match parse_chunk(t, s, e, m) {
        Ok(es) => r matches Ok(pf) && pf.holds(es) && entries_content(es).len() <= t.len(),
        Err(p) => r matches Err(err) && err == IngestError::MalformedHeader(p as usize),
    }
}

/// A chunk's result is a well-formed ragged array with one taxon id per
/// entry: its offsets are one longer than its taxon table.
pub proof fn lemma_chunk_taxa_align(t: Seq<u8>, s: int, e: int, m: CharMapping, r: Result<ParsedFasta, IngestError>)
    requires
        chunk_outcome(t, s, e, m, r),
        t.len() <= i64::MAX,
    ensures
        r matches Ok(pf) ==> pf.sequences.wf() && pf.sequences.cu_seqlens@.len() == pf.taxon_ids@.len() + 1,
{
    if let Ok(es) = parse_chunk(t, s, e, m) {
        lemma_entries_wf(es);
    }
}

/// Adding one entry to the entries read so far.
proof fn lemma_join_push(acc: Seq<Entry>, x: Entry, rest: Result<Seq<Entry>, int>)
    ensures
        join(Ok(acc), join(Ok(seq![x]), rest)) == join(Ok(acc.push(x)), rest),
{
    if let Ok(y) = rest {
        assert(acc + (seq![x] + y) =~= acc.push(x) + y);
    }
}

/// Parses the chunk `[start_i, end_i)` of `text`: the records whose header
/// starts inside the range, each line of their bodies one entry, read past
/// `end_i` where a record runs on.
pub fn parse_fasta_chunk(text: &[u8], start_i: usize, end_i: usize, mapping: &CharMapping) -> (r: Result<
    ParsedFasta,
    IngestError,
>)
    requires
        text@.len() <= i64::MAX,
    ensures
        chunk_outcome(text@, start_i as int, end_i as int, *mapping, r),
{
    let ghost t = text@;
    let ghost m = *mapping;
    let n: usize = text.len();
    let mut content: Vec<u8> = Vec::new();
    let mut offsets: Vec<i64> = vec![0i64];
    let mut taxa: Vec<u64> = Vec::new();
    let mut i: usize = start_i;
    while i < n && text[i] != HEADER
        invariant
            n == t.len(),
            t == text@,
            start_i <= i,
            i <= n || i == start_i,
            skip_to_header(t, start_i as int) == skip_to_header(t, i as int),
        decreases n - i,
    {
        i += 1;
    }
    let ghost mut acc: Seq<Entry> = Seq::empty();
    let mut cur: u64 = 0;
    proof {
        assert(offsets@ =~= entries_offsets(acc));
        assert(taxa@ =~= entries_taxa(acc));
        assert(acc + Seq::<Entry>::empty() =~= acc);
        if let Ok(y) = parse_chunk(t, start_i as int, end_i as int, m) {
            assert(acc + y =~= y);
        }
    }
    while i < n && !(text[i] == HEADER && i >= end_i)
        invariant
            n == t.len(),
            t == text@,
            m == *mapping,
            n <= i64::MAX,
            content@.len() <= i,
            join(Ok(acc), parse_records(t, i as int, end_i as int, m, cur)) == parse_chunk(
                t,
                start_i as int,
                end_i as int,
                m,
            ),
            content@ == entries_content(acc),
            offsets@ == entries_offsets(acc),
            taxa@ == entries_taxa(acc),
            content@.len() <= n,
        decreases n + 1 - i,
    {
        proof {
            lemma_line_end(t, i as int);
        }
        if text[i] == HEADER {
            let mut j: usize = i;
            while j < n && text[j] != NEWLINE
                invariant
                    n == t.len(),
                    t == text@,
                    i <= j <= n,
                    n <= i64::MAX,
                    line_end(t, i as int) == line_end(t, j as int),
                decreases n - j,
            {
                j += 1;
            }
            match parse_header(text, i + 1, j) {
                None => {
                    return Err(IngestError::MalformedHeader(i));
                },
                Some(id) => {
                    proof {
                        assert(parse_records(t, i as int, end_i as int, m, cur) == parse_records(
                            t,
                            j + 1,
                            end_i as int,
                            m,
                            id,
                        ));
                        assert(parse_records(t, n + 1, end_i as int, m, id) == parse_records(
                            t,
                            n as int,
                            end_i as int,
                            m,
                            id,
                        ));
                    }
                    cur = id;
                    i = if j < n {
                        j + 1
                    } else {
                        n
                    };
                },
            }
        } else {
            let ghost before = content@;
            let mut j: usize = i;
            while j < n && text[j] != NEWLINE
                invariant
                    n == t.len(),
                    t == text@,
                    m == *mapping,
                    i <= j <= n,
                    n <= i64::MAX,
                    line_end(t, i as int) == line_end(t, j as int),
                    content@ == before + translate_seq(m, t.subrange(i as int, j as int)),
                    before.len() <= i,
                decreases n - j,
            {
                content.push(mapping.translate(text[j]));
                proof {
                    assert(translate_seq(m, t.subrange(i as int, j + 1)) =~= translate_seq(
                        m,
                        t.subrange(i as int, j as int),
                    ).push(m.translate_spec(t[j as int])));
                }
                j += 1;
            }
            let ghost x: Entry = (translate_seq(m, t.subrange(i as int, j as int)), cur);
            proof {
                assert(t.subrange(i as int, j as int) == t.subrange(i as int, line_end(t, i as int)));
                assert(parse_records(t, i as int, end_i as int, m, cur) == join(
                    Ok(seq![x]),
                    parse_records(t, j + 1, end_i as int, m, cur),
                ));
                assert(parse_records(t, n + 1, end_i as int, m, cur) == parse_records(
                    t,
                    n as int,
                    end_i as int,
                    m,
                    cur,
                ));
                lemma_join_push(acc, x, parse_records(t, j + 1, end_i as int, m, cur));
                let ghost prev = acc;
                acc = acc.push(x);
                assert(acc.drop_last() =~= prev);
                assert(entries_content(acc) == before + x.0);
            }
            offsets.push(content.len() as i64);
            taxa.push(cur);
            proof {
                assert(taxa@ =~= entries_taxa(acc));
            }
            i = if j < n {
                j + 1
            } else {
                n
            };
        }
    }
    proof {
        assert(acc + Seq::<Entry>::empty() =~= acc);
    }
    Ok(ParsedFasta { sequences: AwkwardArray::new(content, offsets), taxon_ids: taxa })
}

} // verus!
