use ext_server::index::IndexNode;
use ext_server::search::{paginate, rank_tokens, SearchHandler};
use ext_server::token::{combine_tokens, normalize_pieces, stopword, WordTokenizer};
use tokenizers::models::wordpiece::WordPiece;
use tokenizers::pre_tokenizers::bert::BertPreTokenizer;
use tokenizers::Tokenizer;

const VOCAB: [&str; 40] = [
    "[UNK]", "the", "running", "dogs", "are", "fast", "fish", "##monger", "monger", "##s",
    "a", "really", "cool", "extension", "that", "does", "third", "thing", "after", "it",
    "fourth", ".", "also", "minecraft", "is", "game", "i", "want", "has", "and",
    "universe", "this", "an", "example", "of", "search", "##able", "index", "creation", "in",
];

fn small_model() -> Tokenizer {
    let mut pairs: Vec<(String, u32)> = Vec::new();
    for (i, w) in VOCAB.iter().enumerate() {
        pairs.push((w.to_string(), i as u32));
    }
    pairs.push(("rust".to_string(), 40));
    let vocab: [(String, u32); 41] = pairs.try_into().unwrap();
    let model = WordPiece::builder().vocab(vocab).unk_token("[UNK]".to_string()).build().unwrap();
    let mut tokenizer = Tokenizer::new(model);
    tokenizer.with_pre_tokenizer(Some(BertPreTokenizer));
    tokenizer
}

fn words(v: &[&str]) -> Vec<String> {
    v.iter().map(|s| s.to_string()).collect()
}

#[test]
fn search() {
    let mut handler: SearchHandler<String> = SearchHandler::new(WordTokenizer::new(small_model()).ok().unwrap());

    handler
        .index(
            "A really cool extension that does a third thing after it does the fourth thing. Also it does a third thing.",
            "2".to_string(),
            1,
        )
        .ok()
        .unwrap();

    handler.index("Minecraft is a cool game.", "1".to_string(), 1).ok().unwrap();

    let result = handler.search("I want minecraft that has a third and fourth universe").ok().unwrap();

    println!("{:?}", result);
    assert_eq!(result, vec!["2".to_string(), "1".to_string()]);
}

#[test]
fn test_tokenizing() {
    let text = "this is an example of a searchable index creation in Rust.";

    let tokenizer = WordTokenizer::new(small_model()).ok().unwrap();
    let tokens = tokenizer.tokenize(text).ok().unwrap();

    println!("{:?}", tokens);
    assert_eq!(tokens, words(&["exampl", "searchabl", "index", "creation", "rust"]));
}

#[test]
fn stopwords_dropped_and_words_stemmed() {
    let tokenizer = WordTokenizer::new(small_model()).ok().unwrap();
    let tokens = tokenizer.tokenize("The running dogs are fast").ok().unwrap();
    assert_eq!(tokens, words(&["run", "dog", "fast"]));
}

#[test]
fn normalize_pieces_filters_then_stems() {
    let out = normalize_pieces(&words(&["the", "running", "dogs", "are", "fast"]));
    assert_eq!(out, words(&["run", "dog", "fast"]));
}

#[test]
fn nothing_left_gives_one_empty_token() {
    assert_eq!(normalize_pieces(&words(&["the", "and", "."])), words(&[""]));
    assert_eq!(normalize_pieces(&Vec::new()), words(&[""]));
}

#[test]
fn continuation_pieces_are_merged() {
    assert_eq!(
        combine_tokens(&words(&["fish", "##monger", "is", "##able", "x"])),
        words(&["fishmonger", "isable", "x"])
    );
    assert_eq!(combine_tokens(&words(&["##lead", "b"])), words(&["lead", "b"]));
    assert_eq!(combine_tokens(&words(&["#a", "##"])), words(&["#a"]));
}

#[test]
fn stopword_list_membership() {
    assert!(stopword("the"));
    assert!(stopword("are"));
    assert!(stopword("?"));
    assert!(!stopword("fish"));
    assert!(!stopword("The"));
}

#[test]
fn subword_split_is_invisible_to_the_index() {
    let tokenizer = WordTokenizer::new(small_model()).ok().unwrap();
    assert_eq!(tokenizer.tokenize("Fishmonger").ok().unwrap(), words(&["fishmong"]));
}

#[test]
fn higher_weight_ranks_first() {
    let mut handler: SearchHandler<String> = SearchHandler::new(WordTokenizer::new(small_model()).ok().unwrap());
    handler.index("fishmonger", "B".to_string(), 1).ok().unwrap();
    handler.index("fishmonger", "A".to_string(), 10).ok().unwrap();
    let result = handler.search("fishmonger").ok().unwrap();
    assert_eq!(result, words(&["A", "B"]));
}

#[test]
fn scores_sum_over_query_tokens_and_ties_keep_first_seen() {
    let mut index: IndexNode<String> = IndexNode::new();
    index.insert("fish", "x".to_string(), 3);
    index.insert("fish", "y".to_string(), 5);
    index.insert("dog", "x".to_string(), 3);
    index.insert("cat", "z".to_string(), 6);
    index.insert("cat", "w".to_string(), 6);
    let ranked = rank_tokens(&index, &words(&["fish", "dog", "cat", "nothing"]));
    assert_eq!(ranked, words(&["x", "z", "w", "y"]));
}

#[test]
fn repeated_query_token_counts_twice() {
    let mut index: IndexNode<String> = IndexNode::new();
    index.insert("fish", "x".to_string(), 2);
    index.insert("dog", "y".to_string(), 3);
    assert_eq!(rank_tokens(&index, &words(&["fish", "fish", "dog"])), words(&["x", "y"]));
    assert_eq!(rank_tokens(&index, &words(&["fish", "dog"])), words(&["y", "x"]));
}

#[test]
fn search_on_empty_index_finds_nothing() {
    let handler: SearchHandler<String> = SearchHandler::new(WordTokenizer::new(small_model()).ok().unwrap());
    assert!(handler.search("fish").ok().unwrap().is_empty());
}

#[test]
fn pagination_windows() {
    let results = words(&["r0", "r1", "r2", "r3", "r4"]);
    assert_eq!(paginate(&results, 0, 2), words(&["r0", "r1"]));
    assert_eq!(paginate(&results, 1, 2), words(&["r2", "r3"]));
    assert_eq!(paginate(&results, 2, 2), words(&["r4"]));
    assert!(paginate(&results, 3, 2).is_empty());
    assert!(paginate(&results, usize::MAX, 2).is_empty());
    assert!(paginate(&results, 0, 0).is_empty());
    assert_eq!(paginate(&results, 0, usize::MAX), results);
}

#[test]
fn search_engine_round_trips_through_stored_nodes() {
    let mut handler: SearchHandler<String> = SearchHandler::new(WordTokenizer::new(small_model()).ok().unwrap());
    handler.index("fish monger", "a".to_string(), 10).ok().unwrap();
    handler.index("fast dogs", "b".to_string(), 1).ok().unwrap();
    let nodes = handler.to_nodes();
    let back: SearchHandler<String> = SearchHandler::from_nodes(&nodes, WordTokenizer::new(small_model()).ok().unwrap());
    for q in ["fish", "monger", "dogs", "fast", "cat"] {
        assert_eq!(back.search(q).ok().unwrap(), handler.search(q).ok().unwrap());
    }
}

#[test]
fn only_word_piece_models_are_taken() {
    let bpe = Tokenizer::new(tokenizers::models::bpe::BPE::default());
    match WordTokenizer::new(bpe) {
        Err(ext_server::search::SearchError::TokenizationError(_)) => {}
        _ => panic!("a BPE model was taken"),
    }
}
