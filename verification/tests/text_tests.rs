//! Tests of the conversation templates, the streaming detokenizer over
//! a real tokenizer, and the attention index helpers.

use candle_vllm::attention::{causal_mask_pattern, triangular_pattern, SeqLenInfo};
use candle_vllm::conversation::{Conversation, Message, SeparatorStyle};
use candle_vllm::prefix_weight_files;
use candle_vllm::stream::{select_delta, split_tail, TokenOutputStream};
use candle_vllm::tokenization::Qwen2Tokenizer;

fn word_level_tokenizer() -> tokenizers::Tokenizer {
    let json = r#"{
        "version": "1.0",
        "truncation": null,
        "padding": null,
        "added_tokens": [],
        "normalizer": null,
        "pre_tokenizer": null,
        "post_processor": null,
        "decoder": null,
        "model": {
            "type": "WordLevel",
            "vocab": {"hello": 0, "world": 1, "!": 2, "<unk>": 3},
            "unk_token": "<unk>"
        }
    }"#;
    tokenizers::Tokenizer::from_bytes(json.as_bytes()).unwrap()
}

#[test]
fn message_keeps_role_and_text() {
    let m = Message::new(("user".to_string(), "hi there".to_string()));
    assert_eq!(m.0.0, "user".to_string());
    assert_eq!(m.0.1, Some("hi there".to_string()));
}

#[test]
fn conversation_renders_system_and_turns() {
    let mut c = Conversation::new(
        "qwen2".to_string(),
        "You are helpful.".to_string(),
        "system".to_string(),
        SeparatorStyle::ChatML,
        "stop".to_string(),
        vec![2],
        ("user".to_string(), "assistant".to_string()),
        "\n".to_string(),
        None,
    );
    c.append_message(Message::new(("user".to_string(), "hello".to_string())));
    c.append_message(Message(("assistant".to_string(), None)));
    let prompt = c.build_prompt();
    assert_eq!(prompt, "You are helpful.\nuser: hello\nassistant: \n".to_string());
    assert_eq!(c.stop_token_ids(), &vec![2]);
}

#[test]
fn chat_template_is_the_rendered_conversation() {
    let tok = Qwen2Tokenizer::new().unwrap();
    assert_eq!(tok.eos_token, "<|endoftext|>");
    let mut c = Conversation::new(
        "qwen2".to_string(),
        "sys".to_string(),
        "system".to_string(),
        SeparatorStyle::Qwen2,
        "stop".to_string(),
        vec![],
        ("user".to_string(), "assistant".to_string()),
        " ".to_string(),
        None,
    );
    c.append_message(Message::new(("user".to_string(), "ping".to_string())));
    assert_eq!(tok.apply_chat_template(&c), "sys user: ping ".to_string());
}

#[test]
fn stream_releases_stable_text_deltas() {
    let mut stream = TokenOutputStream::new(word_level_tokenizer());
    // "hello": grows from nothing and ends alphanumeric: released
    let d1 = stream.next_token(0).unwrap();
    assert_eq!(d1, Some("hello".to_string()));
    // "hello world": the new suffix " world" is released
    let d2 = stream.next_token(1).unwrap();
    assert_eq!(d2, Some(" world".to_string()));
    // "world !": ends in punctuation, so the delta is withheld
    let d3 = stream.next_token(2).unwrap();
    assert_eq!(d3, None);
    // the withheld tail comes out at the end
    let rest = stream.decode_rest().unwrap();
    assert_eq!(rest, Some(" !".to_string()));
    let all = stream.decode_all().unwrap();
    assert_eq!(all, "hello world !".to_string());
}

#[test]
fn stream_vocab_lookup_and_clear() {
    let mut stream = TokenOutputStream::new(word_level_tokenizer());
    assert_eq!(stream.get_token("hello"), Some(0));
    assert_eq!(stream.get_token("world"), Some(1));
    assert_eq!(stream.get_token("missing"), None);
    stream.next_token(0).unwrap();
    stream.clear();
    assert_eq!(stream.decode_all().unwrap(), "".to_string());
    let t = stream.into_inner();
    assert_eq!(t.get_vocab_size(true), 4);
}

#[test]
fn weight_files_are_prefixed_and_reversed() {
    let path = "models/".to_string();
    let files = vec!["a.safetensors".to_string(), "b.safetensors".to_string()];
    let r = prefix_weight_files(&path, &files);
    assert_eq!(
        r,
        vec![
            "models/b.safetensors".to_string(),
            "models/a.safetensors".to_string()
        ]
    );
    let none = prefix_weight_files(&path, &Vec::new());
    assert!(none.is_empty());
}

#[test]
fn seqlen_info_builds_prefix_sums() {
    let info = SeqLenInfo::from_seqlens(&vec![3, 1, 4]);
    assert_eq!(info.seqstart, vec![0, 3, 4, 8]);
    assert_eq!(info.max_seqlen, 4);
    assert_eq!(info.min_seqlen, 1);
    assert_eq!(info.interval(0), (0, 3));
    assert_eq!(info.interval(2), (4, 8));
    let one = SeqLenInfo::from_seqlens(&vec![7]);
    assert_eq!(one.seqstart, vec![0, 7]);
    assert_eq!(one.max_seqlen, 7);
    assert_eq!(one.min_seqlen, 7);
}

#[test]
fn triangular_pattern_zeroes_beyond_diagonal() {
    // lower mask, no shift: keep at or below the diagonal
    let m = triangular_pattern(3, 3, 0, false);
    assert_eq!(m[0], vec![1, 0, 0]);
    assert_eq!(m[1], vec![1, 1, 0]);
    assert_eq!(m[2], vec![1, 1, 1]);
    // upper mask with the same shift zeroes the strict lower part
    let u = triangular_pattern(3, 3, 0, true);
    assert_eq!(u[0], vec![1, 1, 1]);
    assert_eq!(u[1], vec![0, 1, 1]);
    assert_eq!(u[2], vec![0, 0, 1]);
}

#[test]
fn causal_mask_aligns_bottom_right() {
    // two queries against four keys: the last query sees every key
    let m = causal_mask_pattern(2, 4, None);
    assert_eq!(m[0], vec![1, 1, 1, 0]);
    assert_eq!(m[1], vec![1, 1, 1, 1]);
    // a window of two hides older keys
    let w = causal_mask_pattern(2, 4, Some(2));
    assert_eq!(w[0], vec![0, 1, 1, 0]);
    assert_eq!(w[1], vec![0, 0, 1, 1]);
}

#[test]
fn delta_selection_releases_only_stable_tails() {
    // grown text ending alphanumeric: the new tail is released
    assert_eq!(select_delta("hello world", 5), Some(" world"));
    // punctuation at the end withholds the delta
    assert_eq!(select_delta("hello !", 5), None);
    // no growth, nothing to release
    assert_eq!(select_delta("hello", 5), None);
    assert_eq!(split_tail("hello", 5), None);
    // the unconditional tail still comes out
    assert_eq!(split_tail("hello !", 5), Some(" !"));
    // a cut inside a multi-byte character is never released
    assert_eq!(split_tail("héllo", 2), None);
}

#[test]
fn stream_round_trips_its_tokenizer() {
    let t = word_level_tokenizer();
    let stream = TokenOutputStream::new(t);
    let t2 = stream.into_inner();
    assert_eq!(t2.get_vocab_size(true), 4);
}
