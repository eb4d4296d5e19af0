use pca_tree::encoder::OneHotEncoder;
use pca_tree::error::PcaTreeError;

fn rows(seqs: &[&str]) -> Vec<Vec<u8>> {
    seqs.iter().map(|s| s.as_bytes().to_vec()).collect()
}

#[test]
fn one_hot_encodes_each_symbol() {
    let encoder = OneHotEncoder::new();
    let x = encoder.encode_batch(&rows(&["AC", "GT"])).unwrap();
    assert_eq!(x.len(), 2);
    assert_eq!(x[0], vec![1, 0, 0, 0, 0, 1, 0, 0]);
    assert_eq!(x[1], vec![0, 0, 1, 0, 0, 0, 0, 1]);
}

#[test]
fn one_hot_accepts_lower_case() {
    let encoder = OneHotEncoder::new();
    let x = encoder.encode_batch(&rows(&["acgt"])).unwrap();
    assert_eq!(x[0], vec![1, 0, 0, 0, 0, 1, 0, 0, 0, 0, 1, 0, 0, 0, 0, 1]);
}

#[test]
fn one_hot_rejects_empty_batch() {
    let encoder = OneHotEncoder::new();
    assert_eq!(
        encoder.encode_batch(&Vec::new()),
        Err(PcaTreeError::Dimension)
    );
}

#[test]
fn one_hot_reports_length_mismatch() {
    let encoder = OneHotEncoder::new();
    assert_eq!(
        encoder.encode_batch(&rows(&["AAAA", "AAA"])),
        Err(PcaTreeError::LengthMismatch {
            index: 1,
            expected: 4,
            got: 3
        })
    );
}

#[test]
fn one_hot_reports_first_invalid_symbol() {
    let encoder = OneHotEncoder::new();
    assert_eq!(
        encoder.encode_batch(&rows(&["AX", "ZZ"])),
        Err(PcaTreeError::Encoding { symbol: b'X' })
    );
}

#[test]
fn relative_encoding_scores_against_consensus() {
    // Column consensus by majority vote with ties resolved toward the later
    // symbol of A, C, G, T: here "AATT".
    let encoder = OneHotEncoder::new();
    let x = encoder
        .encode_relative(&rows(&["AAAA", "AAAT", "AATT", "TTTT"]))
        .unwrap();
    assert_eq!(x[0], vec![0, 0, 1, 1]);
    assert_eq!(x[1], vec![0, 0, 1, 0]);
    assert_eq!(x[2], vec![0, 0, 0, 0]);
    assert_eq!(x[3], vec![1, 1, 0, 0]);
}

#[test]
fn relative_encoding_ties_prefer_later_symbol() {
    let encoder = OneHotEncoder::new();
    let x = encoder.encode_relative(&rows(&["AT", "TA"])).unwrap();
    // Both columns tie between A and T, so the consensus is "TT".
    assert_eq!(x[0], vec![1, 0]);
    assert_eq!(x[1], vec![0, 1]);
}

#[test]
fn relative_encoding_marks_gaps() {
    let encoder = OneHotEncoder::new();
    let x = encoder.encode_relative(&rows(&["A-", "A."])).unwrap();
    assert_eq!(x[0], vec![0, -1]);
    assert_eq!(x[1], vec![0, -1]);
}

#[test]
fn relative_encoding_reports_length_mismatch() {
    let encoder = OneHotEncoder::new();
    assert_eq!(
        encoder.encode_relative(&rows(&["AA", "AAA"])),
        Err(PcaTreeError::LengthMismatch {
            index: 1,
            expected: 2,
            got: 3
        })
    );
}

#[test]
fn relative_encoding_rejects_empty_batch() {
    let encoder = OneHotEncoder::new();
    assert_eq!(
        encoder.encode_relative(&Vec::new()),
        Err(PcaTreeError::Dimension)
    );
}
