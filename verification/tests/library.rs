//! Concrete checks of the library's laws, edge cases and error paths.

use cadmus::bpe::{apply_merge, pretokenize};
use cadmus::byte_level::{alphabet, byte_decoder, byte_encoder, decode_bytes, encode_bytes};
use cadmus::json::{split_rule, vocab_from_ids};
use cadmus::BpeModel;

const CORPUS: &str = "the cat sat on the mat. the cat ran. \
    a cat and a hat. the rat sat on the hat.";

fn strings(xs: &[&str]) -> Vec<String> {
    xs.iter().map(|s| s.to_string()).collect()
}

#[test]
fn byte_encoder_keeps_printable_bytes_and_lifts_the_rest() {
    let enc = byte_encoder();
    assert_eq!(enc[b'a' as usize], 'a');
    assert_eq!(enc[b'!' as usize], '!');
    assert_eq!(enc[0xE9], '\u{E9}');
    assert_eq!(enc[0], '\u{100}');
    assert_eq!(enc[b' ' as usize], '\u{120}');
    assert_eq!(enc[127], '\u{121}');
    assert_eq!(enc[160], '\u{142}');
    assert_eq!(enc[173], '\u{143}');
    let mut seen: Vec<char> = enc.to_vec();
    seen.sort();
    seen.dedup();
    assert_eq!(seen.len(), 256);
}

#[test]
fn byte_decoder_inverts_the_encoder() {
    let enc = byte_encoder();
    let dec = byte_decoder(&enc);
    assert_eq!(dec.len(), 256);
    for b in 0..256usize {
        assert_eq!(dec[&(enc[b] as u32)], b as u8);
    }
}

#[test]
fn byte_level_roundtrip_on_multibyte_text() {
    let enc = byte_encoder();
    let dec = byte_decoder(&enc);
    for s in ["", "hello world", "grüße", "🌱 wächst", "\u{0}\t\n"] {
        let e = encode_bytes(s, &enc);
        assert_eq!(e.chars().count(), s.len());
        assert_eq!(decode_bytes(&e, &dec), s);
    }
    assert_eq!(encode_bytes(" a", &enc), "\u{120}a");
}

#[test]
fn decode_bytes_drops_unknown_chars_and_replaces_bad_utf8() {
    let enc = byte_encoder();
    let dec = byte_decoder(&enc);
    // '中' stands for no byte, so it is dropped.
    assert_eq!(decode_bytes("a中b", &dec), "ab");
    // 0xC3 alone is not valid UTF-8.
    let lone = enc[0xC3].to_string();
    assert_eq!(decode_bytes(&lone, &dec), "\u{FFFD}");
}

#[test]
fn alphabet_is_sorted_by_codepoint() {
    let enc = byte_encoder();
    let a = alphabet(&enc);
    assert_eq!(a.len(), 256);
    assert_eq!(a[0], '!');
    assert_eq!(a[93], '~');
    assert_eq!(a[94], '\u{A1}');
    assert_eq!(a[188], '\u{100}');
    assert_eq!(a[255], '\u{143}');
    for w in a.windows(2) {
        assert!(w[0] < w[1]);
    }
}

#[test]
fn pretokenize_keeps_a_leading_space_with_its_word() {
    assert_eq!(pretokenize("hello world"), strings(&["hello", " world"]));
    assert_eq!(pretokenize(" leading"), strings(&[" leading"]));
    assert_eq!(pretokenize("a  b"), strings(&["a", " ", " b"]));
    assert_eq!(pretokenize(""), Vec::<String>::new());
    let text = "the cat  sat. ";
    assert_eq!(pretokenize(text).concat(), text);
}

#[test]
fn apply_merge_fuses_left_to_right() {
    let a = "a".to_string();
    let aa = "aa".to_string();
    let out = apply_merge(&strings(&["a", "a", "a"]), &a, &a, &aa);
    assert_eq!(out, strings(&["aa", "a"]));
    let b = "b".to_string();
    let ab = "ab".to_string();
    let out = apply_merge(&strings(&["a", "b", "x", "a", "b"]), &a, &b, &ab);
    assert_eq!(out, strings(&["ab", "x", "ab"]));
    assert_eq!(out.concat(), "abxab");
}

#[test]
fn vocab_is_the_alphabet_then_one_token_per_rule() {
    let model = BpeModel::train(CORPUS, 320, 2);
    let alpha = alphabet(&byte_encoder());
    assert_eq!(model.vocab_size(), 256 + model.merges.len());
    assert!(model.vocab_size() <= 320);
    for (i, c) in alpha.iter().enumerate() {
        assert_eq!(model.vocab[i], c.to_string());
    }
    for (k, (a, b)) in model.merges.iter().enumerate() {
        assert_eq!(model.vocab[256 + k], format!("{a}{b}"));
    }
}

#[test]
fn ties_go_to_the_smaller_pair() {
    // Every pair occurs once; "a" < "c" < "\u{120}" (the space char).
    let model = BpeModel::train("ab cd", 259, 1);
    assert_eq!(
        model.merges,
        vec![
            ("a".to_string(), "b".to_string()),
            ("c".to_string(), "d".to_string()),
            ("\u{120}".to_string(), "cd".to_string()),
        ]
    );
}

#[test]
fn training_stops_at_vocab_size_and_min_frequency() {
    assert_eq!(BpeModel::train(CORPUS, 0, 2).vocab_size(), 256);
    assert_eq!(BpeModel::train(CORPUS, 260, 2).merges.len(), 4);
    assert_eq!(BpeModel::train(CORPUS, 320, 1_000_000).merges.len(), 0);
    // Every pair occurs once here, so nothing reaches two.
    assert_eq!(BpeModel::train("abc", 300, 2).merges.len(), 0);
    // A corpus with no pairs left stops early.
    assert_eq!(BpeModel::train("ab", 300, 1).merges.len(), 1);
    assert_eq!(BpeModel::train("", 300, 0).merges.len(), 0);
}

#[test]
fn encoding_has_at_most_one_token_per_byte() {
    let raw = BpeModel::train(CORPUS, 256, 2);
    let merged = BpeModel::train(CORPUS, 320, 2);
    for s in ["the cat sat on the mat", "grüße", "🌱", ""] {
        assert_eq!(raw.encode(s).len(), s.len());
        assert!(merged.encode(s).len() <= s.len());
    }
}

#[test]
fn json_save_load_preserves_the_model() {
    let model = BpeModel::train(CORPUS, 300, 2);
    let json = model.to_json();
    let back = BpeModel::from_json(&json).unwrap();
    assert_eq!(back.vocab, model.vocab);
    assert_eq!(back.merges, model.merges);
    let text = "the cat sat on the hat";
    assert_eq!(back.encode(text), model.encode(text));
    let doc: serde_json::Value = serde_json::from_str(&json).unwrap();
    assert!(doc["vocab"].is_array());
    assert!(doc["merges"][0].is_array());
}

#[test]
fn from_json_rejects_bad_documents() {
    assert!(BpeModel::from_json("not json").is_err());
    assert!(BpeModel::from_json("{\"vocab\": []}").is_err());
    assert!(BpeModel::from_json("{\"merges\": []}").is_err());
    assert!(BpeModel::from_json("{\"vocab\": [1], \"merges\": []}").is_err());
    assert!(BpeModel::from_json("{\"vocab\": [], \"merges\": [[\"a\"]]}").is_err());
    let m = BpeModel::from_json("[[\"a\", \"b\"], [[\"a\", \"b\"]]]").unwrap();
    assert_eq!(m.vocab, strings(&["a", "b"]));
    assert_eq!(m.merges, vec![("a".to_string(), "b".to_string())]);
}

#[test]
fn hf_json_keeps_a_learned_unk_token() {
    let json = "{\"model\": {\"vocab\": {\"<unk>\": 0, \"a\": 1}, \"merges\": [\"a a\"]}}";
    let m = BpeModel::from_hf_json(json).unwrap();
    assert_eq!(m.vocab, strings(&["<unk>", "a"]));
    assert_eq!(m.merges, vec![("a".to_string(), "a".to_string())]);
    let again = BpeModel::from_hf_json(&m.to_hf_json()).unwrap();
    assert_eq!(again.vocab, m.vocab);
    assert_eq!(again.merges, m.merges);
}

#[test]
fn from_hf_json_rejects_bad_documents() {
    assert!(BpeModel::from_hf_json("[]").is_err());
    assert!(BpeModel::from_hf_json("{\"model\": {\"vocab\": [], \"merges\": []}}").is_err());
    // ids must number the tokens 0, 1, 2, ...
    assert!(BpeModel::from_hf_json("{\"model\": {\"vocab\": {\"a\": 0, \"b\": 2}, \"merges\": []}}").is_err());
    assert!(BpeModel::from_hf_json("{\"model\": {\"vocab\": {\"a\": 0}, \"merges\": [\"ab\"]}}").is_err());
}

#[test]
fn try_encode_reports_a_missing_token() {
    let m = BpeModel::from_json("{\"vocab\": [\"a\"], \"merges\": []}").unwrap();
    assert_eq!(m.try_encode("a"), Some(vec![0]));
    assert_eq!(m.try_encode("b"), None);
    // A later duplicate takes the id.
    let m = BpeModel::from_json("{\"vocab\": [\"a\", \"a\"], \"merges\": []}").unwrap();
    assert_eq!(m.encode("aa"), vec![1, 1]);
}

#[test]
fn decode_reads_invalid_utf8_with_replacement() {
    let model = BpeModel::train(CORPUS, 320, 2);
    let id = model.vocab.iter().position(|t| t == "\u{C3}").unwrap() as u32;
    assert_eq!(model.decode(&[id]), "\u{FFFD}");
    assert_eq!(model.decode(&[]), "");
}

#[test]
fn merge_rules_apply_lowest_rank_first() {
    // Rule 0 fuses "b c", rule 1 "a b": in "abc" the lower rank wins.
    let json = "{\"vocab\": [\"a\", \"b\", \"c\", \"bc\", \"ab\"], \"merges\": [[\"b\", \"c\"], [\"a\", \"b\"]]}";
    let m = BpeModel::from_json(json).unwrap();
    assert_eq!(m.encode("abc"), vec![0, 3]);
    assert_eq!(m.encode("ab"), vec![4]);
}

#[test]
fn split_rule_splits_at_the_first_space() {
    assert_eq!(split_rule(&"a b".to_string()), Some(("a".to_string(), "b".to_string())));
    assert_eq!(split_rule(&"a b c".to_string()), Some(("a".to_string(), "b c".to_string())));
    assert_eq!(split_rule(&"ab".to_string()), None);
}

#[test]
fn vocab_from_ids_places_tokens() {
    let e = vec![("b".to_string(), 1u64), ("a".to_string(), 0u64)];
    assert_eq!(vocab_from_ids(&e), Some(strings(&["a", "b"])));
    let dup = vec![("b".to_string(), 0u64), ("a".to_string(), 0u64)];
    assert_eq!(vocab_from_ids(&dup), None);
    let gap = vec![("b".to_string(), 2u64), ("a".to_string(), 0u64)];
    assert_eq!(vocab_from_ids(&gap), None);
    assert_eq!(vocab_from_ids(&Vec::new()), Some(Vec::new()));
}

#[test]
fn from_hf_json_leaves_out_listed_special_tokens() {
    let json = "{\"added_tokens\": [{\"id\": 2, \"content\": \"<unk>\", \"special\": true}, 5], \
                \"model\": {\"vocab\": {\"a\": 0, \"b\": 1, \"<unk>\": 2}, \"merges\": [[\"a\", \"b\"]]}}";
    let m = BpeModel::from_hf_json(json).unwrap();
    assert_eq!(m.vocab, strings(&["a", "b"]));
    assert_eq!(m.merges, vec![("a".to_string(), "b".to_string())]);
    // Without the listing, `<unk>` stays a token of its own.
    let plain = "{\"model\": {\"vocab\": {\"a\": 0, \"<unk>\": 1}, \"merges\": []}}";
    assert_eq!(BpeModel::from_hf_json(plain).unwrap().vocab, strings(&["a", "<unk>"]));
    // Ids must be numbers.
    assert!(BpeModel::from_hf_json("{\"model\": {\"vocab\": {\"a\": \"x\"}, \"merges\": []}}").is_err());
}

#[test]
fn encoding_splits_before_a_space() {
    let model = BpeModel::train(CORPUS, 320, 2);
    let (s, t) = ("the cat", " sat on the mat");
    let whole = model.encode(&format!("{s}{t}"));
    assert_eq!(whole, [model.encode(s), model.encode(t)].concat());
}

#[test]
fn smaller_vocab_size_learns_a_prefix() {
    let big = BpeModel::train(CORPUS, 320, 2);
    let small = BpeModel::train(CORPUS, 270, 2);
    assert_eq!(small.merges.len(), 14.min(big.merges.len()));
    assert_eq!(small.merges[..], big.merges[..small.merges.len()]);
    assert_eq!(small.vocab[..], big.vocab[..small.vocab.len()]);
}

#[test]
fn larger_min_frequency_learns_a_prefix() {
    let low = BpeModel::train(CORPUS, 320, 2);
    let high = BpeModel::train(CORPUS, 320, 4);
    assert!(high.merges.len() <= low.merges.len());
    assert_eq!(high.merges[..], low.merges[..high.merges.len()]);
    let zero = BpeModel::train(CORPUS, 320, 0);
    let one = BpeModel::train(CORPUS, 320, 1);
    assert_eq!(zero.merges, one.merges);
    assert_eq!(zero.vocab, one.vocab);
}

#[test]
fn byte_level_roundtrip_with_another_table() {
    let mut enc = ['\0'; 256];
    for b in 0..256u32 {
        enc[b as usize] = char::from_u32(0x400 + b).unwrap();
    }
    let dec = byte_decoder(&enc);
    for s in ["grüße", "🌱 wächst", "", "plain"] {
        assert_eq!(decode_bytes(&encode_bytes(s, &enc), &dec), s);
    }
}

#[test]
fn to_json_writes_vocab_then_merges() {
    let model = BpeModel::train("ab ab", 257, 1);
    let json = model.to_json();
    let v = json.find("\"vocab\"").unwrap();
    let m = json.find("\"merges\"").unwrap();
    assert!(v < m);
}
