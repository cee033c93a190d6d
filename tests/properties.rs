use gptbpe::encoder::{unzip, GPTEncoder};
use gptbpe::codec::{decode_symbol, encode_byte, CodecError};
use gptbpe::merge::{BytePairEncoder, StepResult};
use gptbpe::text::{grapheme, segment};
use gptbpe::tokenizer::{decode, encode, DecodingError, EncodingError};
use gptbpe::vocab::Vocabulary;
use gptbpe::words::tokens;

fn printable(b: u8) -> bool {
    (33..=126).contains(&b) || (161..=172).contains(&b) || (174..=255).contains(&b)
}

fn base_id(b: u8) -> u32 {
    if printable(b) {
        (0..b).filter(|x| printable(*x)).count() as u32
    } else {
        188 + (0..b).filter(|x| !printable(*x)).count() as u32
    }
}

fn vocabulary(entries: &[(&str, u32)]) -> Vocabulary {
    let mut v = Vocabulary::new();
    for b in 0..=255u8 {
        v.insert(String::from_utf8(encode_byte(b)).unwrap(), base_id(b));
    }
    for (key, id) in entries {
        v.insert(key.to_string(), *id);
    }
    v
}

#[test]
fn every_byte_round_trips_through_its_symbol() {
    for b in 0..=255u8 {
        assert_eq!(decode_symbol(&encode_byte(b)), Ok(b));
    }
}

#[test]
fn symbols_are_pairwise_distinct() {
    let all: Vec<Vec<u8>> = (0..=255u8).map(encode_byte).collect();
    for i in 0..256 {
        for j in 0..256 {
            if i != j {
                assert_ne!(all[i], all[j]);
            }
        }
    }
}

#[test]
fn symbol_code_points() {
    assert_eq!(encode_byte(b'!'), "!".as_bytes().to_vec());
    assert_eq!(encode_byte(b' '), "Ġ".as_bytes().to_vec());
    assert_eq!(encode_byte(0), "Ā".as_bytes().to_vec());
    assert_eq!(encode_byte(127), "ġ".as_bytes().to_vec());
    assert_eq!(encode_byte(0xAD), "Ń".as_bytes().to_vec());
    assert_eq!(encode_byte(0xF0), "ð".as_bytes().to_vec());
    assert_eq!(encode_byte(0x9F), "Ł".as_bytes().to_vec());
}

#[test]
fn unknown_symbol_is_an_error() {
    assert_eq!(decode_symbol(b"ab"), Err(CodecError::UnmappedSymbol(b"ab".to_vec())));
    assert_eq!(decode_symbol(b" "), Err(CodecError::UnmappedSymbol(b" ".to_vec())));
    assert_eq!(decode_symbol(b""), Err(CodecError::UnmappedSymbol(vec![])));
}

#[test]
fn hello_has_five_units() {
    assert_eq!(grapheme(b"hello").len(), 5);
    assert_eq!(segment(b"hello").len(), 5);
    assert_eq!(grapheme(b""), Vec::<Vec<u8>>::new());
}

#[test]
fn a_cluster_keeps_its_bytes_together() {
    // an emoji with a skin tone is one cluster of eight bytes
    let clusters = segment("a👋🏽".as_bytes());
    assert_eq!(clusters.len(), 2);
    assert_eq!(clusters[1].len(), 8);
}

#[test]
fn invalid_utf8_is_read_lossily() {
    // the lone byte 0xFF becomes U+FFFD, three bytes long
    let units = grapheme(&[b'a', 0xFF]);
    assert_eq!(units.len(), 4);
    assert_eq!(units[1], encode_byte(0xEF));
}

#[test]
fn words_spell_the_input() {
    let inputs: [&[u8]; 5] = [
        b"let there be light.",
        b"  leading and trailing  ",
        b"it's 42 o'clock, isn't it?\n\tyes",
        "hello 👋 world 🌍".as_bytes(),
        b"",
    ];
    for input in inputs {
        let words = tokens(input).unwrap();
        assert_eq!(words.concat(), input.to_vec());
    }
    assert_eq!(
        tokens(b"it's here").unwrap(),
        vec![b"it".to_vec(), b"'s".to_vec(), b" here".to_vec()]
    );
}

#[test]
fn empty_input_encodes_to_nothing() {
    let v = vocabulary(&[]);
    assert_eq!(encode(b"", &v), Ok(vec![]));
    assert_eq!(decode(&[], &v), Ok(vec![]));
}

#[test]
fn indivisible_values_with_gpt2_merges() {
    let v = vocabulary(&[
        ("in", 259),
        ("is", 271),
        ("al", 282),
        ("le", 293),
        ("Ġv", 410),
        ("iv", 452),
        ("ue", 518),
        ("ind", 521),
        ("ible", 856),
        ("ble", 903),
        ("Ġval", 1188),
        ("Ġvalue", 1988),
        ("isible", 12843),
    ]);
    assert_eq!(encode(b"indivisible values", &v), Ok(vec![521, 452, 12843, 1988, 82]));
}

#[test]
fn emoji_round_trip() {
    let v = vocabulary(&[
        ("he", 258),
        ("Ġw", 266),
        ("or", 273),
        ("ll", 297),
        ("ld", 335),
        ("Ġwor", 476),
        ("Ġworld", 995),
        ("ðŁ", 8582),
        ("ĠðŁ", 12520),
        ("hell", 12758),
        ("hello", 31373),
        ("ĠðŁĳ", 50169),
    ]);
    let input = "hello 👋 world 🌍".as_bytes();
    let ids = encode(input, &v).unwrap();
    assert!(!ids.is_empty());
    assert_eq!(ids, vec![31373, 50169, 233, 995, 12520, 234, 235]);
    assert_eq!(decode(&ids, &v).unwrap(), input.to_vec());
}

#[test]
fn missing_base_symbol_fails_to_encode() {
    let mut v = Vocabulary::new();
    for b in 0..=255u8 {
        if b != b'x' {
            v.insert(String::from_utf8(encode_byte(b)).unwrap(), base_id(b));
        }
    }
    assert_eq!(encode(b"box", &v), Err(EncodingError::UnmappableUnit(b"x".to_vec())));
}

#[test]
fn unknown_id_fails_to_decode() {
    let v = vocabulary(&[]);
    assert_eq!(decode(&[13, 70000, 5], &v), Err(DecodingError::UnknownTokenId(70000)));
}

#[test]
fn multi_word_keys_are_not_decoded() {
    let v = vocabulary(&[("a b", 300)]);
    assert_eq!(decode(&[300], &v), Err(DecodingError::UnknownTokenId(300)));
}

#[test]
fn encoding_is_deterministic() {
    let v = vocabulary(&[("he", 258), ("ll", 297), ("hell", 12758), ("hello", 31373)]);
    let encoder = GPTEncoder::new(v);
    let first = encoder.encode(b"hello hello world").unwrap();
    let second = encoder.encode(b"hello hello world").unwrap();
    assert_eq!(first, second);
    assert_eq!(encoder.decode(&first).unwrap(), b"hello hello world".to_vec());
}

#[test]
fn every_step_removes_one_unit() {
    let v = vocabulary(&[("he", 258), ("ll", 297), ("hell", 12758), ("hello", 31373)]);
    let units = grapheme(b"hello");
    let start = units.len();
    let mut state = BytePairEncoder::new(units, &v);
    let mut steps = 0;
    let mut count = start;
    while state.step(&v) == StepResult::Continue {
        steps += 1;
        assert_eq!(state.units().len(), count - 1);
        count -= 1;
    }
    assert!(steps <= start - 1);
    assert_eq!(state.units(), &vec![b"hello".to_vec()]);
    assert_eq!(steps, 4);
}

#[test]
fn ties_go_to_the_leftmost_pair() {
    // "ab" and "ba" share a rank; in "aba" the left pair merges first
    let v = vocabulary(&[("ab", 300), ("ba", 300)]);
    let units = grapheme(b"aba");
    let mut state = BytePairEncoder::new(units, &v);
    assert_eq!(state.step(&v), StepResult::Continue);
    assert_eq!(state.units(), &vec![b"ab".to_vec(), b"a".to_vec()]);
    assert_eq!(state.step(&v), StepResult::Done);
}

#[test]
fn lower_rank_merges_first() {
    let v = vocabulary(&[("bc", 300), ("ab", 400)]);
    let mut state = BytePairEncoder::new(grapheme(b"abc"), &v);
    assert_eq!(state.step(&v), StepResult::Continue);
    assert_eq!(state.units(), &vec![b"a".to_vec(), b"bc".to_vec()]);
}

#[test]
fn first_entry_of_a_key_wins() {
    let mut v = Vocabulary::new();
    v.insert("a".to_string(), 1);
    v.insert("a".to_string(), 2);
    assert_eq!(v.lookup_forward(b"a"), Some(1));
    assert_eq!(v.lookup_reverse(2), Some("a".to_string()));
    assert_eq!(v.lookup_forward(b"b"), None);
}

#[test]
fn pairs_of_parts() {
    let parts = vec!["a".to_string(), "b".to_string(), "c".to_string()];
    let pairs = unzip(&parts);
    assert_eq!(pairs, vec![["a".to_string(), "b".to_string()], ["b".to_string(), "c".to_string()]]);
    assert!(unzip(&vec![]).is_empty());
    assert!(unzip(&vec!["x".to_string()]).is_empty());
}

#[test]
fn vocabulary_lines_are_loaded_in_order() {
    let lines = vec![
        "# a comment".to_string(),
        "{\"a\": 1, \"b\": 2}".to_string(),
        "   ".to_string(),
        "{\"ab\": 3}".to_string(),
    ];
    let v = Vocabulary::from_lines(&lines).unwrap();
    assert_eq!(v.len(), 3);
    assert_eq!(v.lookup_forward(b"ab"), Some(3));
    assert_eq!(v.lookup_reverse(2), Some("b".to_string()));
}

#[test]
fn malformed_vocabulary_line_is_reported() {
    let lines = vec!["{\"a\": 1}".to_string(), "not json".to_string(), "{\"b\": 2}".to_string()];
    assert_eq!(
        Vocabulary::from_lines(&lines).err(),
        Some(gptbpe::vocab::ConfigurationError::MalformedLine(1))
    );
}

#[test]
fn decoding_inverts_encoding() {
    let v = vocabulary(&[
        ("Ġt", 256),
        ("he", 258),
        ("in", 259),
        ("re", 260),
        ("Ġthe", 262),
        ("le", 293),
        ("let", 1616),
        ("Ġthere", 612),
    ]);
    let inputs: [&[u8]; 4] = [
        b"let there be light.",
        b"the\tinner  re-entry\n",
        "naïve café, 1234 €".as_bytes(),
        b"",
    ];
    for input in inputs {
        let ids = encode(input, &v).unwrap();
        assert_eq!(decode(&ids, &v).unwrap(), input.to_vec());
    }
}

#[test]
fn characters_outside_the_symbols_decode_as_themselves() {
    let v = vocabulary(&[("€", 900), ("aé", 901)]);
    assert_eq!(decode(&[900], &v).unwrap(), "€".as_bytes().to_vec());
    assert_eq!(decode(&[901], &v).unwrap(), vec![b'a', 0xE9]);
}

#[test]
fn text_symbols_follow_its_bytes() {
    assert_eq!(gptbpe::text::symbols_of_text("é"), vec![encode_byte(0xC3), encode_byte(0xA9)]);
}
