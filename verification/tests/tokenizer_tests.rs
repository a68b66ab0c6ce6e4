use bramha::inference::tokenizer::{
    assemble_ids, chat_prompt_or_fallback, fallback_prompt_lowered, segment_prompt, vocab_additions,
    BramhaTokenizer, PromptSegment,
};

const TOKENIZER_JSON: &str = r#"{
  "version": "1.0",
  "truncation": null,
  "padding": null,
  "added_tokens": [
    {"id": 3, "content": "<|user|>", "single_word": false, "lstrip": false, "rstrip": false, "normalized": false, "special": true}
  ],
  "normalizer": null,
  "pre_tokenizer": {"type": "Whitespace"},
  "post_processor": null,
  "decoder": null,
  "model": {"type": "WordLevel", "vocab": {"<s>": 0, "hello": 1, "world": 2, "[UNK]": 4}, "unk_token": "[UNK]"}
}"#;

#[test]
fn encode_cuts_special_tokens_and_prepends_bos() {
    let tok = BramhaTokenizer::from_json_bytes(TOKENIZER_JSON.as_bytes()).unwrap();
    assert_eq!(tok.encode("<|user|>hello world", true).unwrap(), vec![0, 3, 1, 2]);
    assert_eq!(tok.encode("<|user|>hello world", false).unwrap(), vec![3, 1, 2]);
    assert_eq!(tok.encode("<s>hello", true).unwrap(), vec![0, 1]);
    assert_eq!(tok.encode("", true).unwrap(), vec![0]);
}

#[test]
fn decode_gives_text_back() {
    let tok = BramhaTokenizer::from_json_bytes(TOKENIZER_JSON.as_bytes()).unwrap();
    let text = tok.decode(&[1, 2], true).unwrap();
    assert!(text.contains("hello"));
    assert!(text.contains("world"));
}

#[test]
fn bad_tokenizer_json_is_an_error() {
    let err = BramhaTokenizer::from_json_bytes(b"not json").err().unwrap();
    assert!(err.starts_with("Failed to parse JSON: "));
    let err = BramhaTokenizer::from_json_bytes(b"{\"model\": 5}").err().unwrap();
    assert!(err.starts_with("Failed to parse fixed tokenizer.json: "));
}

#[test]
fn vocab_additions_pick_new_contents_once() {
    let added = vec![
        (Some("<a>".to_string()), true),
        (Some("known".to_string()), true),
        (Some("<b>".to_string()), false),
        (None, true),
        (Some("<a>".to_string()), true),
        (Some("<b>".to_string()), true),
    ];
    let vocab = vec!["known".to_string(), "x".to_string()];
    assert_eq!(vocab_additions(&added, &vocab), vec![0, 5]);
    assert_eq!(vocab_additions(&Vec::new(), &vocab), Vec::<usize>::new());
}

#[test]
fn segments_take_earliest_special() {
    let specials = vec![("<s>".to_string(), 1u32), ("<|user|>".to_string(), 7u32)];
    assert_eq!(
        segment_prompt("ab<|user|>cd<s>", &specials),
        vec![
            PromptSegment::Text("ab".to_string()),
            PromptSegment::Special(7),
            PromptSegment::Text("cd".to_string()),
            PromptSegment::Special(1),
        ]
    );
    assert_eq!(segment_prompt("", &specials), Vec::<PromptSegment>::new());
}

#[test]
fn assembly_of_ids() {
    let segs = vec![
        PromptSegment::Text("a".to_string()),
        PromptSegment::Special(9),
        PromptSegment::Text("b".to_string()),
    ];
    let pieces = vec![Some(vec![1, 2]), None, None];
    assert_eq!(assemble_ids(Some(0), &segs, &pieces), vec![0, 1, 2, 9]);
    assert_eq!(assemble_ids(None, &segs, &vec![None, Some(vec![5]), Some(vec![3])]), vec![9, 3]);
}

#[test]
fn fallback_prompts_by_model() {
    assert_eq!(
        fallback_prompt_lowered("tinyllama-1.1b", "hi"),
        "<|system|>\nYou are a helpful AI assistant.</s>\n<|user|>\nhi</s>\n<|assistant|>\n"
    );
    assert_eq!(
        fallback_prompt_lowered("qwen2", "hi"),
        "<|im_start|>system\nYou are a helpful AI assistant.<|im_end|>\n<|im_start|>user\nhi<|im_end|>\n<|im_start|>assistant\n"
    );
    assert_eq!(
        fallback_prompt_lowered("tinyllama", "<|user|>hi"),
        "<|im_start|>system\nYou are a helpful AI assistant.<|im_end|>\n<|im_start|>user\n<|user|>hi<|im_end|>\n<|im_start|>assistant\n"
    );
    assert_eq!(fallback_prompt_lowered("tinyllama", "<|im_start|><|user|>hi"), "<|im_start|><|user|>hi");
    assert_eq!(fallback_prompt_lowered("mistral", "hi"), "hi");
    assert_eq!(BramhaTokenizer::fallback_chat_prompt("TinyLlama", "x"), fallback_prompt_lowered("tinyllama", "x"));
    assert_eq!(chat_prompt_or_fallback("qwen", Some("done".to_string()), "hi"), "done");
}

#[test]
fn chat_template_renders_or_falls_back() {
    let config = r#"{"chat_template": "{% for m in messages %}[{{ m.role }}]{{ m.content }}{% endfor %}{% if add_generation_prompt %}>{% endif %}{{ bos_token }}", "bos_token": "<s>"}"#;
    assert_eq!(
        BramhaTokenizer::apply_chat_template_to("qwen", Some(config.as_bytes()), "hi"),
        "[system]You are a helpful AI assistant.[user]hi><s>"
    );
    let broken = r#"{"chat_template": "{% for m in %}"}"#;
    assert_eq!(
        BramhaTokenizer::apply_chat_template_to("mistral", Some(broken.as_bytes()), "hi"),
        "hi"
    );
    let raising = r#"{"chat_template": "{{ raise_exception('no') }}"}"#;
    assert_eq!(
        BramhaTokenizer::apply_chat_template_to("mistral", Some(raising.as_bytes()), "hi"),
        "hi"
    );
    assert_eq!(
        BramhaTokenizer::apply_chat_template_to("Qwen2", None, "hi"),
        fallback_prompt_lowered("qwen2", "hi")
    );
    assert_eq!(
        BramhaTokenizer::apply_chat_template_to("Qwen2", Some(b"{}"), "hi"),
        fallback_prompt_lowered("qwen2", "hi")
    );
}
