use twin_prime_engine::backend::{
    probable_prime_hit, proth_applies, proth_mode_label, CompactExportBackend, ExportFilesBackend, LocalGmpBackend,
};
use twin_prime_engine::compact::{compact_payload, encode_varint, push_u64_le};
use twin_prime_engine::export::{export_batch_texts, export_group, new_export_texts, push_export_line};
use twin_prime_engine::fixed_n::{generate_survivor_batch, SurvivorBatch};

fn read_varint(bytes: &[u8], pos: &mut usize) -> u64 {
    let mut value = 0u64;
    let mut shift = 0;
    loop {
        let b = bytes[*pos];
        *pos += 1;
        value |= ((b & 0x7f) as u64) << shift;
        if b < 0x80 {
            return value;
        }
        shift += 7;
    }
}

fn small_batch(survivors: Vec<u64>) -> SurvivorBatch {
    SurvivorBatch {
        n: 1000,
        k_start: 3,
        k_batch_size: 100,
        sieve_limit: 50,
        batch_index: 2,
        batch_k0: 1203,
        total_input_k: 100,
        survivors,
    }
}

#[test]
fn varint_bytes() {
    let mut out = Vec::new();
    encode_varint(0, &mut out);
    assert_eq!(out, vec![0]);
    out.clear();
    encode_varint(127, &mut out);
    assert_eq!(out, vec![127]);
    out.clear();
    encode_varint(128, &mut out);
    assert_eq!(out, vec![0x80, 0x01]);
    out.clear();
    encode_varint(300, &mut out);
    assert_eq!(out, vec![0xAC, 0x02]);
    out.clear();
    encode_varint(u64::MAX, &mut out);
    assert_eq!(out.len(), 10);
    let mut pos = 0;
    assert_eq!(read_varint(&out, &mut pos), u64::MAX);
    let mut pre = vec![9u8];
    encode_varint(1, &mut pre);
    assert_eq!(pre, vec![9, 1]);
}

#[test]
fn little_endian_count() {
    let mut out = Vec::new();
    push_u64_le(&mut out, 0x0102030405060708);
    assert_eq!(out, 0x0102030405060708u64.to_le_bytes().to_vec());
}

#[test]
fn compact_payload_layout() {
    let b = small_batch(vec![1203, 1209, 1221, 1803]);
    let payload = compact_payload(&b);
    assert_eq!(&payload[..8], &4u64.to_le_bytes());
    // steps 0, 1, 3, 100 -> deltas 0, 1, 2, 97
    assert_eq!(&payload[8..], &[0, 1, 2, 97]);
    let empty = compact_payload(&small_batch(vec![]));
    assert_eq!(empty, 0u64.to_le_bytes().to_vec());
}

#[test]
fn compact_payload_roundtrip() {
    let b = generate_survivor_batch(1288907, 3, 4096, 50_000, 1).unwrap();
    let payload = compact_payload(&b);
    let count = u64::from_le_bytes(payload[..8].try_into().unwrap());
    assert_eq!(count as usize, b.survivors.len());
    let mut pos = 8;
    let mut step = 0u64;
    let mut rebuilt = Vec::new();
    for i in 0..count {
        let d = read_varint(&payload, &mut pos);
        step = if i == 0 { d } else { step + d };
        rebuilt.push(b.batch_k0 + 6 * step);
    }
    assert_eq!(pos, payload.len());
    assert_eq!(rebuilt, b.survivors);
}

#[test]
fn export_lines() {
    let mut t = new_export_texts();
    assert_eq!(t.pairs_lines, "k\tminus\tplus\n");
    push_export_line(&mut t, 3, 10);
    push_export_line(&mut t, 9, 10);
    assert_eq!(t.k_lines, "3\n9\n");
    assert_eq!(t.minus_lines, "3*2^10-1\n9*2^10-1\n");
    assert_eq!(t.plus_lines, "3*2^10+1\n9*2^10+1\n");
    assert_eq!(t.pairs_lines, "k\tminus\tplus\n3\t3*2^10-1\t3*2^10+1\n9\t9*2^10-1\t9*2^10+1\n");
}

#[test]
fn export_of_a_batch() {
    let b = small_batch(vec![1203, 1215]);
    let t = export_batch_texts(&b);
    assert_eq!(t.k_lines, "1203\n1215\n");
    assert_eq!(t.minus_lines, "1203*2^1000-1\n1215*2^1000-1\n");
    assert_eq!(t.plus_lines, "1203*2^1000+1\n1215*2^1000+1\n");
    assert_eq!(t.pairs_lines.lines().count(), 3);
}

#[test]
fn export_of_a_group() {
    let g = export_group(1000, 3, 512, 2000, 4, 3);
    let mut expect_k = String::new();
    let mut total = 0u64;
    for idx in 4..7 {
        let b = generate_survivor_batch(1000, 3, 512, 2000, idx).unwrap();
        total += b.survivors.len() as u64;
        for k in &b.survivors {
            expect_k.push_str(&format!("{}\n", k));
        }
    }
    assert_eq!(g.total_survivors, total);
    assert_eq!(g.texts.k_lines, expect_k);
    assert_eq!(g.texts.minus_lines.lines().count() as u64, total);
    // a group past the end of the u64 range stops at the first batch that does not fit
    let stopped = export_group(1000, u64::MAX - 6138, 512, 100, 1, 5);
    let first = generate_survivor_batch(1000, u64::MAX - 6138, 512, 100, 1).unwrap();
    assert!(generate_survivor_batch(1000, u64::MAX - 6138, 512, 100, 2).is_none());
    assert_eq!(stopped.total_survivors, first.survivors.len() as u64);
}

#[test]
fn compact_backend_result() {
    let backend = CompactExportBackend { output_dir: "out".to_string() };
    assert_eq!(backend.name(), "compact_export");
    let b = small_batch(vec![1203, 1215]);
    let r = backend.batch_result(&b);
    assert_eq!(r.backend, "compact_export");
    assert_eq!(r.batch_index, 2);
    assert_eq!(r.batch_k0, "1203");
    assert_eq!(r.survivors_in, 2);
    assert_eq!(r.artifacts[0].kind, "metadata");
    assert_eq!(r.artifacts[0].label, "n1000_batch000000000002.meta.json");
    assert_eq!(r.artifacts[1].kind, "kdelta_payload");
    assert_eq!(r.artifacts[1].label, "n1000_batch000000000002.kdelta.bin");
    assert_eq!(r.notes.len(), 2);
    assert!(!r.partial && r.hit_count == 0 && r.hits.is_empty());
}

#[test]
fn export_files_backend_result() {
    let backend = ExportFilesBackend { output_dir: "out".to_string() };
    assert_eq!(backend.name(), "export_files");
    let r = backend.batch_result(&small_batch(vec![1203]));
    let labels: Vec<&str> = r.artifacts.iter().map(|a| a.label.as_str()).collect();
    assert_eq!(
        labels,
        vec![
            "n1000_batch000000000002.k.txt",
            "n1000_batch000000000002.minus.txt",
            "n1000_batch000000000002.plus.txt",
            "n1000_batch000000000002.pairs.tsv"
        ]
    );
    assert_eq!(r.notes, vec!["Batch exported for external backend".to_string()]);
}

#[test]
fn local_backend_pieces() {
    assert!(proth_applies(3, 2));
    assert!(!proth_applies(5, 2));
    assert!(!proth_applies(4, 10));
    assert!(proth_applies(u64::MAX, 64));
    assert!(!proth_applies(u64::MAX, 63));
    assert!(proth_applies(1, 0) == false);
    assert_eq!(proth_mode_label(7), "proth_base_7");
    let p = "1".repeat(50) + "23";
    let q = "1".repeat(50) + "25";
    let h = probable_prime_hit(12, None, &p, &q);
    assert_eq!(h.k, "12");
    assert_eq!(h.digits, 52);
    assert_eq!(h.plus_mode, "bpsw_fallback");
    assert_eq!(h.p_head, "1".repeat(40));
    assert_eq!(h.p_tail, "1".repeat(38) + "23");
    assert_eq!(h.q_tail, "1".repeat(38) + "25");
    let short = probable_prime_hit(3, Some("proth_base_3".to_string()), "23", "25");
    assert_eq!(short.p_head, "23");
    assert_eq!(short.p_tail, "23");
    assert_eq!(short.plus_mode, "proth_base_3");
    let backend = LocalGmpBackend;
    let r = backend.batch_result(&small_batch(vec![1203, 1209, 1215]), 2, 1, vec![], true);
    assert_eq!(r.backend, "local_gmp");
    assert!(r.partial);
    assert_eq!((r.plus_tested, r.minus_tested, r.survivors_in), (2, 1, 3));
    let done = backend.batch_result(&small_batch(vec![1203]), 1, 1, vec![short.clone()], false);
    assert!(!done.partial);
    assert_eq!((done.hit_count, done.minus_tested, done.plus_tested, done.survivors_in), (1, 1, 1, 1));
}

#[test]
fn sieve_only_at_388k_digits() {
    let plan = twin_prime_engine::fixed_n::build_k_sieve_plan(1_288_907, 50_000);
    let alive = twin_prime_engine::fixed_n::sieve_k_batch(1_288_907, 3, 64, &plan);
    let offs = twin_prime_engine::fixed_n::survivor_offsets(&alive, 64);
    let ks: Vec<u64> = offs.iter().map(|o| 3 + 6 * o).collect();
    assert_eq!(ks, vec![99, 255]);
}

#[test]
fn export_files_bytes_at_388k_digits() {
    let mut bytes = 0;
    let mut survivors = 0;
    for idx in 0..4 {
        let b = generate_survivor_batch(1_288_907, 3, 4096, 50_000, idx).unwrap();
        survivors += b.survivors.len();
        let t = export_batch_texts(&b);
        bytes += t.k_lines.len() + t.minus_lines.len() + t.plus_lines.len() + t.pairs_lines.len();
    }
    assert_eq!(survivors, 377);
    assert_eq!(bytes, 31_414);
}
