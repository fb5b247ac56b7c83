use bpe_tokenizer::tokenizer::BPETokenizer;
use bpe_tokenizer::TokError;

fn trained(corpus: &str, target: usize, specials: Vec<String>) -> BPETokenizer {
    let mut t = BPETokenizer::new();
    t.train(corpus, target, specials).expect("training failed");
    t
}

#[test]
fn scenario_native_save_load_same_encoding() {
    let t = trained("hello world hello there hello everyone", 150, Vec::new());
    assert!(t.merges.len() > 0);
    let (vocab_data, merges_data) = t.save_vocab_and_merges();
    let mut u = BPETokenizer::new();
    u.load_vocab_and_merges(&vocab_data, &merges_data).unwrap();
    let a = t.encode("hello world", None).unwrap();
    let b = u.encode("hello world", None).unwrap();
    assert_eq!(a, b);
    assert_eq!(u.decode(&b).unwrap(), "hello world");
}

#[test]
fn save_load_preserves_every_token() {
    // Tokens holding a backslash, a tab and a newline survive the escaping
    // exactly.
    let t = trained("a\\b\tc a\\b\nx", 140, Vec::new());
    let (vocab_data, merges_data) = t.save_vocab_and_merges();
    let mut u = BPETokenizer::new();
    u.load_vocab_and_merges(&vocab_data, &merges_data).unwrap();
    assert_eq!(t.vocab.size(), u.vocab.size());
    for i in 0..t.vocab.size() {
        assert_eq!(t.vocab.token_of(i).unwrap(), u.vocab.token_of(i).unwrap());
    }
    assert_eq!(t.merges.len(), u.merges.len());
    for k in 0..t.merges.len() {
        assert_eq!(t.merges[k], u.merges[k]);
    }
}

#[test]
fn loading_garbage_is_invalid_data() {
    let mut u = BPETokenizer::new();
    assert_eq!(
        u.load_vocab_and_merges("not a vocab line\n", ""),
        Err(TokError::InvalidData)
    );
}

#[test]
fn loading_unresolvable_merge_is_invalid_data() {
    let t = trained("hi there", 130, Vec::new());
    let (vocab_data, _) = t.save_vocab_and_merges();
    let mut u = BPETokenizer::new();
    // A merge record whose constituent is absent from the vocabulary.
    let r = u.load_vocab_and_merges(&vocab_data, "\u{1f980}\tx\t0\n");
    assert_eq!(r, Err(TokError::InvalidData));
}

#[test]
fn scenario_rank_file_import() {
    let vocab_json = "{\"e\":0,\"s\":1,\"t\":2,\"es\":3,\"\\n\":4}";
    let rank_file = "#version: test\ne s\n";
    let mut t = BPETokenizer::new();
    t.load_vocab_and_merges_from_openai(vocab_json, rank_file).unwrap();
    // The single pair received rank 0.
    assert_eq!(t.ranks.len(), 1);
    let l: String = t.ranks[0].0.iter().collect();
    let r: String = t.ranks[0].1.iter().collect();
    assert_eq!(l, "e");
    assert_eq!(r, "s");
    // And it is preferred during encoding of a word containing "es".
    let ids = t.encode("test", None).unwrap();
    assert_eq!(ids, vec![2, 3, 2]);
}

#[test]
fn import_synthesizes_newline_from_end_of_text() {
    let vocab_json = "{\"a\":0,\"<|endoftext|>\":1}";
    let mut t = BPETokenizer::new();
    t.load_vocab_and_merges_from_openai(vocab_json, "header\n").unwrap();
    // The reserved ID was repurposed to spell a literal newline.
    assert_eq!(t.vocab.token_of(1).unwrap(), vec!['\n']);
}

#[test]
fn import_without_newline_candidate_fails() {
    let vocab_json = "{\"a\":0,\"b\":1}";
    let mut t = BPETokenizer::new();
    assert_eq!(
        t.load_vocab_and_merges_from_openai(vocab_json, "header\n"),
        Err(TokError::InvalidData)
    );
}

#[test]
fn import_rejects_sparse_ids() {
    let vocab_json = "{\"a\":0,\"b\":7}";
    let mut t = BPETokenizer::new();
    assert_eq!(
        t.load_vocab_and_merges_from_openai(vocab_json, "header\n"),
        Err(TokError::InvalidData)
    );
}

#[test]
fn import_rejects_malformed_json() {
    let mut t = BPETokenizer::new();
    assert_eq!(
        t.load_vocab_and_merges_from_openai("not json at all", "header\n"),
        Err(TokError::InvalidData)
    );
}

#[test]
fn rank_lines_with_wrong_field_count_are_skipped() {
    let vocab_json = "{\"e\":0,\"s\":1,\"\\n\":2}";
    let rank_file = "header\nonly_one_field\ne s extra\ne s\nq z\n";
    let mut t = BPETokenizer::new();
    t.load_vocab_and_merges_from_openai(vocab_json, rank_file).unwrap();
    // Only the well-formed, resolvable line counts.
    assert_eq!(t.ranks.len(), 1);
}
