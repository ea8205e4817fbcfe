use dogma_rust::error::IngestError;
use dogma_rust::fasta::{parse_fasta_chunk, parse_header};
use dogma_rust::ingest::{parse_fasta, parse_fasta_with_threads, plan_chunks, ChunkRange};
use dogma_rust::mapping::CharMapping;

const MAPPING: [u8; 5] = [1, 2, 3, 2, 9];

fn mapping() -> CharMapping {
    CharMapping::from_mapping_vector(&MAPPING).unwrap()
}

#[test]
fn mapping_vector_must_have_five_entries() {
    assert_eq!(CharMapping::from_mapping_vector(&[1, 2, 3, 4]).unwrap_err(), IngestError::InvalidMapping(4));
    assert_eq!(CharMapping::from_mapping_vector(&[1, 2, 3, 4, 5, 6]).unwrap_err(), IngestError::InvalidMapping(6));
    let m = CharMapping::from_mapping_vector(&[10, 20, 30, 40, 50]).unwrap();
    assert_eq!((m.a, m.t, m.c, m.g, m.all_other), (10, 20, 30, 40, 50));
}

#[test]
fn translation_covers_every_byte() {
    let m = mapping();
    for b in 0u8..=255 {
        let expected = match b {
            b'A' => 1,
            b'T' | b'U' => 2,
            b'C' => 3,
            b'G' => 2,
            _ => 9,
        };
        assert_eq!(m.translate(b), expected);
        assert_eq!(m.translate(b), m.translate(b));
    }
}

#[test]
fn lowercase_maps_to_fallback() {
    let text = b">5\nacgtu\n";
    let pf = parse_fasta_chunk(text, 0, text.len(), &mapping()).unwrap();
    assert_eq!(pf.sequences.content, vec![9, 9, 9, 9, 9]);
    assert_eq!(pf.sequences.cu_seqlens, vec![0, 5]);
    assert_eq!(pf.taxon_ids, vec![5]);
}

#[test]
fn two_records_single_chunk() {
    let text = b">1\nACGT\n>2\nTTGA\n";
    let pf = parse_fasta_with_threads(text, &MAPPING, 1).unwrap();
    assert_eq!(pf.sequences.content, vec![1, 3, 2, 2, 2, 2, 2, 1]);
    assert_eq!(pf.sequences.cu_seqlens, vec![0, 4, 8]);
    assert_eq!(pf.taxon_ids, vec![1, 2]);
    let direct = parse_fasta_chunk(text, 0, text.len(), &mapping()).unwrap();
    assert_eq!(direct.sequences.content, pf.sequences.content);
    assert_eq!(direct.sequences.cu_seqlens, pf.sequences.cu_seqlens);
}

#[test]
fn split_inside_first_body_skips_to_next_header() {
    let text = b">1\nACGT\n>2\nTTGA\n";
    let m = mapping();
    let first = parse_fasta_chunk(text, 0, 5, &m).unwrap();
    assert_eq!(first.sequences.content, vec![1, 3, 2, 2]);
    assert_eq!(first.sequences.cu_seqlens, vec![0, 4]);
    assert_eq!(first.taxon_ids, vec![1]);
    let second = parse_fasta_chunk(text, 5, text.len(), &m).unwrap();
    assert_eq!(second.sequences.content, vec![2, 2, 2, 1]);
    assert_eq!(second.sequences.cu_seqlens, vec![0, 4]);
    assert_eq!(second.taxon_ids, vec![2]);
}

#[test]
fn multi_line_records_give_one_entry_per_line() {
    let text = b">7\nAC\nGT\n>8\nA\n";
    let pf = parse_fasta_chunk(text, 0, text.len(), &mapping()).unwrap();
    assert_eq!(pf.sequences.content, vec![1, 3, 2, 2, 1]);
    assert_eq!(pf.sequences.cu_seqlens, vec![0, 2, 4, 5]);
    assert_eq!(pf.taxon_ids, vec![7, 7, 8]);
}

#[test]
fn last_line_without_newline_is_read() {
    let text = b">3\nGGA";
    let pf = parse_fasta_chunk(text, 0, text.len(), &mapping()).unwrap();
    assert_eq!(pf.sequences.content, vec![2, 2, 1]);
    assert_eq!(pf.sequences.cu_seqlens, vec![0, 3]);
    assert_eq!(pf.taxon_ids, vec![3]);
}

#[test]
fn chunk_without_header_is_empty() {
    let text = b">1\nACGTACGTACGT\n";
    let pf = parse_fasta_chunk(text, 5, 10, &mapping()).unwrap();
    assert!(pf.sequences.content.is_empty());
    assert_eq!(pf.sequences.cu_seqlens, vec![0]);
    assert!(pf.taxon_ids.is_empty());
    let past_end = parse_fasta_chunk(text, 100, 200, &mapping()).unwrap();
    assert_eq!(past_end.sequences.cu_seqlens, vec![0]);
}

#[test]
fn header_at_or_past_end_belongs_to_next_chunk() {
    let text = b">1\nAC\n>2\nGT\n";
    let pf = parse_fasta_chunk(text, 0, 6, &mapping()).unwrap();
    assert_eq!(pf.taxon_ids, vec![1]);
    let pf = parse_fasta_chunk(text, 0, 7, &mapping()).unwrap();
    assert_eq!(pf.taxon_ids, vec![1, 2]);
}

#[test]
fn malformed_header_is_reported_with_its_offset() {
    let text = b">1\nAC\n>x2\nGT\n";
    let err = parse_fasta_chunk(text, 0, text.len(), &mapping()).unwrap_err();
    assert_eq!(err, IngestError::MalformedHeader(6));
    let err = parse_fasta_with_threads(text, &MAPPING, 1).unwrap_err();
    assert_eq!(err, IngestError::MalformedHeader(6));
    let empty = b">\nAC\n";
    assert_eq!(parse_fasta_chunk(empty, 0, empty.len(), &mapping()).unwrap_err(), IngestError::MalformedHeader(0));
}

#[test]
fn header_values() {
    let t = b"18446744073709551615";
    assert_eq!(parse_header(t, 0, t.len()), Some(u64::MAX));
    let t = b"18446744073709551616";
    assert_eq!(parse_header(t, 0, t.len()), None);
    let t = b"+42";
    assert_eq!(parse_header(t, 0, t.len()), Some(42));
    let t = b"+";
    assert_eq!(parse_header(t, 0, t.len()), None);
    let t = b"007";
    assert_eq!(parse_header(t, 0, t.len()), Some(7));
    let t = b"12a";
    assert_eq!(parse_header(t, 0, t.len()), None);
    let t = b"-1";
    assert_eq!(parse_header(t, 0, t.len()), None);
}

#[test]
fn invalid_mapping_is_rejected_before_parsing() {
    let err = parse_fasta_with_threads(b">x\nAC\n", &[1, 2, 3], 1).unwrap_err();
    assert_eq!(err, IngestError::InvalidMapping(3));
    let err = parse_fasta(b">1\nAC\n", &[]).unwrap_err();
    assert_eq!(err, IngestError::InvalidMapping(0));
}

#[test]
fn small_inputs_use_one_chunk() {
    assert_eq!(plan_chunks(100, 8), vec![ChunkRange { start: 0, end: 100 }]);
    assert_eq!(plan_chunks(0, 3), vec![ChunkRange { start: 0, end: 0 }]);
    assert_eq!(plan_chunks(99_999, 4).len(), 1);
}

#[test]
fn large_inputs_are_split_evenly() {
    let r = plan_chunks(250_001, 4);
    assert_eq!(
        r,
        vec![
            ChunkRange { start: 0, end: 62_501 },
            ChunkRange { start: 62_501, end: 125_002 },
            ChunkRange { start: 125_002, end: 187_503 },
            ChunkRange { start: 187_503, end: 250_001 },
        ]
    );
    let r = plan_chunks(100_003, 100_000);
    assert_eq!(r.len(), 100_000);
    assert_eq!(r[0], ChunkRange { start: 0, end: 2 });
    assert_eq!(r[99_999], ChunkRange { start: 100_003, end: 100_003 });
}

fn big_fasta() -> Vec<u8> {
    let mut text = Vec::new();
    let mut id: u64 = 0;
    while text.len() < 300_000 {
        text.extend_from_slice(format!(">{}\n", id).as_bytes());
        let line: Vec<u8> = (0..(id % 70 + 1)).map(|k| b"ACGTUNacgt"[((k + id) % 10) as usize]).collect();
        text.extend_from_slice(&line);
        text.push(b'\n');
        if id % 3 == 0 {
            text.extend_from_slice(b"GATTACA\n");
        }
        id += 1;
    }
    text
}

#[test]
fn chunked_content_matches_single_chunk() {
    let text = big_fasta();
    let single = parse_fasta_with_threads(&text, &MAPPING, 1).unwrap();
    for n in [2usize, 3, 4, 7] {
        let chunked = parse_fasta_with_threads(&text, &MAPPING, n).unwrap();
        assert_eq!(chunked.sequences.content, single.sequences.content);
        assert_eq!(chunked.taxon_ids, single.taxon_ids);
        assert_eq!(chunked.sequences.cu_seqlens.len(), chunked.taxon_ids.len() + n);
        let mut merged: Vec<i64> = single.sequences.cu_seqlens.clone();
        merged.dedup();
        let mut c = chunked.sequences.cu_seqlens.clone();
        c.dedup();
        assert_eq!(c, merged);
    }
    let pooled = parse_fasta(&text, &MAPPING).unwrap();
    assert_eq!(pooled.sequences.content, single.sequences.content);
}

#[test]
fn offsets_are_well_formed() {
    let text = big_fasta();
    let pf = parse_fasta_with_threads(&text, &MAPPING, 5).unwrap();
    let o = &pf.sequences.cu_seqlens;
    assert_eq!(o[0], 0);
    assert_eq!(*o.last().unwrap() as usize, pf.sequences.content.len());
    for i in 0..o.len() - 1 {
        assert!(o[i] <= o[i + 1]);
    }
}

#[test]
fn single_chunk_has_one_more_offset_than_taxa() {
    let text = b">1\nA\nC\n>2\n\nG\n";
    let pf = parse_fasta_with_threads(text, &MAPPING, 6).unwrap();
    assert_eq!(pf.sequences.cu_seqlens.len(), pf.taxon_ids.len() + 1);
    assert_eq!(pf.sequences.cu_seqlens, vec![0, 1, 2, 2, 3]);
    assert_eq!(pf.taxon_ids, vec![1, 1, 2, 2]);
}
