use gpt2_train::dataloader::{DataError, DataLoader};
use gpt2_train::tokens::{decode_tokens, try_decode_tokens};
use tokenizers::Tokenizer;

fn native(tokens: &[i32]) -> Vec<u8> {
    tokens.iter().flat_map(|x| x.to_ne_bytes()).collect()
}

fn step(loader: &mut DataLoader, file: &[u8]) -> u64 {
    let start = loader.seek_batch();
    let n = (loader.b * loader.t + 1) * 4;
    let at = start as usize;
    loader.next_batch(&file[at..at + n]);
    start
}

#[test]
fn loader_walks_through_the_file() {
    let tokens: Vec<i32> = (0..8).map(|i| i * 1000 - 3).collect();
    let file = native(&tokens);
    let mut loader = DataLoader::new(file.len() as u64, 1, 3).unwrap();
    assert_eq!(loader.num_batches, 2);
    assert_eq!(loader.inputs, vec![0, 0, 0]);
    assert_eq!(loader.targets, vec![0, 0, 0]);
    assert_eq!(step(&mut loader, &file), 0);
    assert_eq!(loader.inputs, tokens[0..3].to_vec());
    assert_eq!(loader.targets, tokens[1..4].to_vec());
    assert_eq!(loader.current_position, 12);
    assert_eq!(step(&mut loader, &file), 12);
    assert_eq!(loader.inputs, tokens[3..6].to_vec());
    assert_eq!(loader.targets, tokens[4..7].to_vec());
    assert_eq!(loader.current_position, 24);
    // Less than a batch is left: the loader starts over.
    assert_eq!(step(&mut loader, &file), 0);
    assert_eq!(loader.inputs, tokens[0..3].to_vec());
    assert_eq!(loader.current_position, 12);
    loader.reset();
    assert_eq!(loader.current_position, 0);
    assert_eq!(loader.inputs, tokens[0..3].to_vec());
}

#[test]
fn loader_reads_the_last_batch_that_fits() {
    let file = native(&[1, 2, 3, 4, 5]);
    let mut loader = DataLoader::new(20, 2, 1).unwrap();
    assert_eq!(step(&mut loader, &file), 0);
    assert_eq!(step(&mut loader, &file), 8);
    assert_eq!(loader.inputs, vec![3, 4]);
    assert_eq!(loader.targets, vec![4, 5]);
    assert_eq!(step(&mut loader, &file), 0);
}

#[test]
fn batches_overlap_by_one_token() {
    let tokens: Vec<i32> = (10..20).collect();
    let file = native(&tokens);
    let mut loader = DataLoader::new(file.len() as u64, 2, 2).unwrap();
    step(&mut loader, &file);
    let last = loader.targets[3];
    step(&mut loader, &file);
    assert_eq!(loader.inputs[0], last);
    for i in 0..3 {
        assert_eq!(loader.targets[i], loader.inputs[i + 1]);
    }
}

#[test]
fn loader_refuses_a_small_file() {
    assert!(matches!(DataLoader::new(19, 2, 2), Err(DataError::FileTooSmall)));
    assert!(DataLoader::new(20, 2, 2).is_ok());
    assert_eq!(DataError::FileTooSmall.message(), "File too small");
}

fn tokenizer(decoder: &str) -> Tokenizer {
    let json = format!(
        "{{\"version\":\"1.0\",\"truncation\":null,\"padding\":null,\"added_tokens\":[{{\"id\":3,\
         \"content\":\"<end>\",\"single_word\":false,\"lstrip\":false,\"rstrip\":false,\
         \"normalized\":false,\"special\":true}}],\"normalizer\":null,\"pre_tokenizer\":null,\
         \"post_processor\":null,\"decoder\":{},\"model\":{{\"type\":\"WordLevel\",\
         \"vocab\":{{\"hello\":0,\"world\":1,\"?\":2,\"<end>\":3}},\"unk_token\":\"?\"}}}}",
        decoder
    );
    json.parse().unwrap()
}

#[test]
fn tokens_become_text() {
    let plain = tokenizer("null");
    assert_eq!(decode_tokens(&plain, &[0, 1]), "hello world");
    // Special tokens are left out, and so are those that there are not.
    assert_eq!(decode_tokens(&plain, &[1, 3, 0, 99]), "world hello");
    assert_eq!(decode_tokens(&plain, &[]), "");
    assert_eq!(try_decode_tokens(&plain, &[0, 1]), Some("hello world".to_string()));
}

#[test]
fn byte_level_tokens_become_text() {
    let bytes = tokenizer(
        "{\"type\":\"ByteLevel\",\"add_prefix_space\":false,\"trim_offsets\":true,\"use_regex\":true}",
    );
    assert_eq!(decode_tokens(&bytes, &[0, 1]), "helloworld");
    assert_eq!(try_decode_tokens(&bytes, &[1]), Some("world".to_string()));
}

const BPE: &str = "{\"type\":\"BPEDecoder\",\"suffix\":\"o\"}";
const BYTES: &str = "{\"type\":\"ByteFallback\"}";
const CTC: &str = "{\"type\":\"CTC\",\"pad_token\":\"world\",\"word_delimiter_token\":\"l\",\
    \"cleanup\":true}";
const FUSE: &str = "{\"type\":\"Fuse\"}";
const METASPACE: &str = "{\"type\":\"Metaspace\",\"replacement\":\"o\",\
    \"prepend_scheme\":\"always\",\"split\":true}";
const REPLACE: &str = "{\"type\":\"Replace\",\"pattern\":{\"String\":\"l\"},\"content\":\"L\"}";
const WORD_PIECE: &str = "{\"type\":\"WordPiece\",\"prefix\":\"wo\",\"cleanup\":true}";

fn strip(start: usize, stop: usize) -> String {
    format!(
        "{{\"type\":\"Strip\",\"content\":\"?\",\"start\":{},\"stop\":{}}}",
        start, stop
    )
}

fn sequence(decoders: &[&str]) -> String {
    format!("{{\"type\":\"Sequence\",\"decoders\":[{}]}}", decoders.join(","))
}

fn text(decoder: &str, tokens: &[u32]) -> Option<String> {
    try_decode_tokens(&tokenizer(decoder), tokens)
}

fn some(text: &str) -> Option<String> {
    Some(text.to_string())
}

#[test]
fn every_decoder_is_run() {
    assert_eq!(text(WORD_PIECE, &[0, 1]), some("hellorld"));
    assert_eq!(text(METASPACE, &[0, 1]), some("hellw rld"));
    assert_eq!(text(CTC, &[0, 0, 1, 2]), some("he  o?"));
    assert_eq!(text(FUSE, &[0, 1]), some("helloworld"));
    assert_eq!(text(BYTES, &[0, 2]), some("hello?"));
    assert_eq!(text(BPE, &[0, 1]), some("hell wrld"));
    assert_eq!(text(&strip(1, 0), &[2, 0]), some("hello"));
    assert_eq!(text(&strip(0, 1), &[2, 0]), some("hello"));
    assert_eq!(text(&sequence(&[METASPACE, FUSE]), &[0, 1]), some("hellw rld"));
    assert_eq!(decode_tokens(&tokenizer(METASPACE), &[1]), "wrld");
}

#[test]
fn decoders_that_cannot_be_run_are_told() {
    // No token is left.
    assert_eq!(text(BPE, &[]), None);
    assert_eq!(text(BPE, &[3, 99]), None);
    assert_eq!(text(FUSE, &[3, 99]), some(""));
    // A token of one character cannot give two of them.
    assert_eq!(text(&strip(1, 1), &[2, 0]), None);
    assert_eq!(text(&strip(0, 2), &[2]), None);
    assert_eq!(text(&strip(1, 1), &[0, 1]), some("helloworld"));
    assert_eq!(text(&strip(0, 2), &[]), some(""));
    // A pattern is searched for in nothing but empty tokens.
    assert_eq!(text(REPLACE, &[0, 1]), None);
    assert_eq!(text(REPLACE, &[]), some(""));
    assert_eq!(text(REPLACE, &[3, 99]), some(""));
    assert_eq!(text(&sequence(&[&strip(1, 0), REPLACE]), &[2]), some(""));
    assert_eq!(text(&sequence(&[FUSE, REPLACE]), &[0]), None);
}

#[test]
fn decoders_of_a_sequence_are_run_in_turn() {
    let nested = sequence(&[&sequence(&[FUSE]), BPE]);
    assert_eq!(text(&nested, &[]), some(""));
    assert_eq!(text(&sequence(&[BPE, FUSE]), &[]), None);
    assert_eq!(text(&sequence(&[CTC, BPE]), &[1]), None);
    assert_eq!(text(&sequence(&[CTC, BPE]), &[0]), some("he  "));
    assert_eq!(text(&sequence(&[FUSE, &strip(1, 1)]), &[2, 2]), some(""));
    assert_eq!(text(&sequence(&[&strip(1, 1), FUSE]), &[2, 2]), None);
    assert_eq!(text(&sequence(&[]), &[0, 1]), some("helloworld"));
}
