use bpe_tokenizer::tokenizer::BPETokenizer;
use bpe_tokenizer::vocab::Vocabulary;
use bpe_tokenizer::TokError;

fn trained(corpus: &str, target: usize, specials: Vec<String>) -> BPETokenizer {
    let mut t = BPETokenizer::new();
    t.train(corpus, target, specials).expect("training failed");
    t
}

#[test]
fn scenario_hello_world_round_trip() {
    let mut t = BPETokenizer::new();
    t.train("hello world hello there hello everyone", 100, Vec::new()).unwrap();
    let ids = t.encode("hello world", None).unwrap();
    let back = t.decode(&ids).unwrap();
    assert_eq!(back, "hello world");
}

#[test]
fn round_trip_with_learned_merges() {
    let t = trained("hello world hello there hello everyone", 150, Vec::new());
    assert!(t.merges.len() > 0);
    let ids = t.encode("hello there everyone", None).unwrap();
    assert_eq!(t.decode(&ids).unwrap(), "hello there everyone");
}

#[test]
fn round_trip_single_word() {
    let t = trained("abracadabra abracadabra", 140, Vec::new());
    let ids = t.encode("abracadabra", None).unwrap();
    assert_eq!(t.decode(&ids).unwrap(), "abracadabra");
}

#[test]
fn newline_decodes_with_boundary_spaces() {
    let t = trained("hello world", 100, Vec::new());
    let ids = t.encode("hello\nworld", None).unwrap();
    assert_eq!(t.decode(&ids).unwrap(), "hello \n world");
}

#[test]
fn encoding_is_deterministic() {
    let t = trained("hello world hello there hello everyone", 150, Vec::new());
    let a = t.encode("hello there", None).unwrap();
    let b = t.encode("hello there", None).unwrap();
    assert_eq!(a, b);
}

#[test]
fn training_is_deterministic() {
    let t1 = trained("the quick brown fox the quick", 140, Vec::new());
    let t2 = trained("the quick brown fox the quick", 140, Vec::new());
    assert_eq!(t1.vocab.size(), t2.vocab.size());
    assert_eq!(t1.merges.len(), t2.merges.len());
    for i in 0..t1.vocab.size() {
        assert_eq!(t1.vocab.token_of(i).unwrap(), t2.vocab.token_of(i).unwrap());
    }
    assert_eq!(t1.encode("the quick", None).unwrap(), t2.encode("the quick", None).unwrap());
}

#[test]
fn vocab_growth_is_bounded() {
    let t = trained("aaa bbb aaa bbb aaa", 131, Vec::new());
    assert!(t.vocab.size() <= 131);
}

#[test]
fn small_target_learns_no_merges() {
    // The seed vocabulary (all of ASCII plus the marker) is larger than 5,
    // so the merge loop never runs.
    let t = trained("hello world hello", 5, Vec::new());
    assert_eq!(t.merges.len(), 0);
    assert_eq!(t.ranks.len(), 0);
}

#[test]
fn rank_list_matches_learning_order() {
    let t = trained("hello world hello there hello everyone", 150, Vec::new());
    assert!(t.merges.len() > 0);
    assert_eq!(t.ranks.len(), t.merges.len());
    for k in 0..t.merges.len() {
        let rule = t.merges[k];
        assert_eq!(t.ranks[k].0, t.vocab.token_of(rule.left).unwrap());
        assert_eq!(t.ranks[k].1, t.vocab.token_of(rule.right).unwrap());
    }
}

#[test]
fn empty_corpus_is_invalid_input() {
    let mut t = BPETokenizer::new();
    assert_eq!(t.train("", 100, Vec::new()), Err(TokError::InvalidInput));
}

#[test]
fn empty_text_encodes_to_nothing() {
    let t = trained("hello world", 100, Vec::new());
    assert_eq!(t.encode("", None).unwrap(), Vec::<usize>::new());
}

#[test]
fn out_of_vocabulary_character_is_not_found() {
    let t = trained("hello world", 100, Vec::new());
    assert_eq!(t.encode("caf\u{e9}", None), Err(TokError::NotFound));
}

#[test]
fn unknown_id_fails_decoding() {
    let t = trained("hi", 100, Vec::new());
    let bad = vec![t.vocab.size() + 7];
    assert_eq!(t.decode(&bad), Err(TokError::NotFound));
}

#[test]
fn special_token_is_atomic() {
    let specials = vec!["<|endoftext|>".to_string()];
    let t = trained("hello world hello", 150, specials.clone());
    let ids = t.encode("<|endoftext|>", Some(&specials)).unwrap();
    assert_eq!(ids.len(), 1);
    let tok = t.vocab.token_of(ids[0]).unwrap();
    let s: String = tok.iter().collect();
    assert_eq!(s, "<|endoftext|>");
}

#[test]
fn special_token_atomic_inside_text() {
    let specials = vec!["<|endoftext|>".to_string()];
    let t = trained("hello world hello", 150, specials.clone());
    let eot = t.encode("<|endoftext|>", Some(&specials)).unwrap()[0];
    let ids = t.encode("hello<|endoftext|>world", Some(&specials)).unwrap();
    assert!(ids.contains(&eot));
    // The special token never straddles two IDs: removing its single ID
    // leaves exactly the encodings of the surrounding spans.
    let mut rest = ids.clone();
    let pos = rest.iter().position(|&x| x == eot).unwrap();
    rest.remove(pos);
    let hello = t.encode("hello", Some(&specials)).unwrap();
    let world = t.encode("world", Some(&specials)).unwrap();
    let mut expect = hello.clone();
    expect.extend(world.iter().copied());
    assert_eq!(rest, expect);
}

#[test]
fn disallowed_special_literal_fails() {
    let specials = vec!["<|endoftext|>".to_string()];
    let t = trained("hello world hello", 150, specials.clone());
    let r = t.encode("hello <|secret|> world", Some(&specials));
    assert_eq!(r, Err(TokError::InvalidData));
}

#[test]
fn no_carve_out_when_not_requested() {
    let specials = vec!["<|endoftext|>".to_string()];
    let t = trained("hello world hello", 150, specials.clone());
    // With no allowed set the reserved-looking literal is encoded as plain
    // characters rather than rejected.
    let ids = t.encode("x<|secret|>y", None).unwrap();
    assert_eq!(t.decode(&ids).unwrap(), "x<|secret|>y");
}

#[test]
fn vocabulary_is_a_bijection() {
    let mut v = Vocabulary::new();
    assert_eq!(v.insert(0, vec!['a']), Ok(()));
    assert_eq!(v.insert(1, vec!['b']), Ok(()));
    assert_eq!(v.insert(2, vec!['a']), Err(TokError::InvalidInput));
    assert_eq!(v.insert(5, vec!['c']), Err(TokError::InvalidInput));
    assert_eq!(v.insert(2, Vec::new()), Err(TokError::InvalidInput));
    assert_eq!(v.size(), 2);
    assert_eq!(v.id_of(&vec!['b']), Ok(1));
    assert_eq!(v.id_of(&vec!['z']), Err(TokError::NotFound));
    assert_eq!(v.token_of(0), Ok(vec!['a']));
    assert_eq!(v.token_of(9), Err(TokError::NotFound));
}

#[test]
fn tokenize_with_bpe_covers_segment() {
    let t = trained("hello world hello there hello everyone", 150, Vec::new());
    let ids = t.tokenize_with_bpe(&vec!['h', 'e', 'l', 'l', 'o']).unwrap();
    let mut spelled = String::new();
    for id in ids {
        let tok = t.vocab.token_of(id).unwrap();
        spelled.extend(tok.iter());
    }
    assert_eq!(spelled, "hello");
}

#[test]
fn ascii_fallback_covers_unseen_input() {
    // Every ASCII code point is seeded even when absent from the corpus.
    let t = trained("hello world", 100, Vec::new());
    let ids = t.encode("zq%3 !?", None).unwrap();
    assert_eq!(t.decode(&ids).unwrap(), "zq%3 !?");
}
