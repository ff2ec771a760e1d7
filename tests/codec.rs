use nano_vectordb::codec::{bytes_to_matrix, deserialize, serialize, matrix_to_bytes};
use nano_vectordb::error::DbError;
use nano_vectordb::score::{passes, rank_of};
use nano_vectordb::topk::{bounded_insert, merge_top_k, select_top_k};
use nano_vectordb::score::ScoredIndex;

#[test]
fn test_base64_deserialization_edge_cases() {
    let matrix = vec![1.0f32.to_bits(), 2.0f32.to_bits()];
    let text = serialize(&matrix);
    let decoded = deserialize(&text).unwrap();
    let floats: Vec<f32> = decoded.iter().map(|b| f32::from_bits(*b)).collect();
    assert_eq!(floats, vec![1.0, 2.0]);

    assert_eq!(deserialize("INVALID_BASE64!!"), Err(DbError::Io));
}

#[test]
fn components_are_little_endian() {
    assert_eq!(matrix_to_bytes(&vec![0x0403_0201, 0xddcc_bbaa]), vec![1, 2, 3, 4, 0xaa, 0xbb, 0xcc, 0xdd]);
    assert_eq!(bytes_to_matrix(&vec![1, 2, 3, 4, 5, 6]), vec![0x0403_0201]);
    assert_eq!(bytes_to_matrix(&vec![]), Vec::<u32>::new());
}

#[test]
fn matrix_text_is_standard_base64() {
    assert_eq!(serialize(&vec![1.0f32.to_bits()]), "AACAPw==");
    assert_eq!(serialize(&vec![]), "");
    assert_eq!(deserialize("AACAPw==").unwrap(), vec![1.0f32.to_bits()]);
    assert_eq!(deserialize("AACAPwAA").unwrap(), vec![1.0f32.to_bits()]);
    assert_eq!(deserialize("AACAPw"), Err(DbError::Io));
}

#[test]
fn score_ranks() {
    assert_eq!(rank_of(0.0f32.to_bits()), 0x8000_0000);
    assert_eq!(rank_of((-0.0f32).to_bits()), 0x8000_0000);
    assert_eq!(rank_of(f32::NAN.to_bits()), 0);
    assert_eq!(rank_of(f32::INFINITY.to_bits()), 0x8000_0000 + 0x7f80_0000);
    assert_eq!(rank_of(f32::NEG_INFINITY.to_bits()), 0x8000_0000 - 0x7f80_0000);
    assert_eq!(rank_of(1.0f32.to_bits()), 0x8000_0000 + 0x3f80_0000);
    assert!(rank_of((-1.0f32).to_bits()) < rank_of((-0.5f32).to_bits()));
    assert!(passes(0.5f32.to_bits(), None));
    assert!(!passes(f32::NAN.to_bits(), None));
    assert!(!passes(f32::NEG_INFINITY.to_bits(), None));
    assert!(passes(f32::MIN.to_bits(), None));
    assert!(passes((-1.0f32).to_bits(), None));
    assert!(passes(0.5f32.to_bits(), Some(0.5f32.to_bits())));
    assert!(!passes(0.4f32.to_bits(), Some(0.5f32.to_bits())));
    assert!(!passes(f32::NAN.to_bits(), Some(f32::MIN.to_bits())));
}

fn si(score: f32, index: usize) -> ScoredIndex {
    ScoredIndex { score: score.to_bits(), index }
}

#[test]
fn top_k_selection() {
    let cands = vec![si(0.1, 0), si(0.9, 1), si(0.5, 2), si(0.7, 3), si(0.5, 4)];
    let r = select_top_k(&cands, 3);
    let idx: Vec<usize> = r.iter().map(|c| c.index).collect();
    assert_eq!(idx, vec![1, 3, 2]);
    assert_eq!(select_top_k(&cands, 10).len(), 5);
    assert!(select_top_k(&cands, 0).is_empty());
}

#[test]
fn bounded_insert_evicts_the_worst() {
    let mut heap = vec![si(0.9, 0), si(0.5, 1)];
    assert_eq!(bounded_insert(&mut heap, si(0.7, 2), 2), Some(si(0.5, 1)));
    assert_eq!(heap, vec![si(0.9, 0), si(0.7, 2)]);
    assert_eq!(bounded_insert(&mut heap, si(0.1, 3), 2), Some(si(0.1, 3)));
    assert_eq!(bounded_insert(&mut heap, si(0.8, 4), 3), None);
    assert_eq!(heap, vec![si(0.9, 0), si(0.8, 4), si(0.7, 2)]);
}

#[test]
fn merging_partitions_gives_the_overall_top_k() {
    let left = vec![si(0.2, 0), si(0.8, 1), si(0.4, 2)];
    let right = vec![si(0.9, 3), si(0.1, 4), si(0.6, 5)];
    let merged = merge_top_k(select_top_k(&left, 2), &select_top_k(&right, 2), 2);
    let mut all = left.clone();
    all.extend(right.iter().copied());
    assert_eq!(merged, select_top_k(&all, 2));
    let idx: Vec<usize> = merged.iter().map(|c| c.index).collect();
    assert_eq!(idx, vec![3, 1]);
}
