use gptbpe::codec::encode_byte;
use gptbpe::merge::merge;
use gptbpe::text::grapheme;
use gptbpe::tokenizer::{decode, decode_keys, encode, units_to_ids};
use gptbpe::vocab::Vocabulary;

fn printable(b: u8) -> bool {
    (33..=126).contains(&b) || (161..=172).contains(&b) || (174..=255).contains(&b)
}

/// The id that a GPT-2 style vocabulary gives the symbol of `b`.
fn base_id(b: u8) -> u32 {
    if printable(b) {
        (0..b).filter(|x| printable(*x)).count() as u32
    } else {
        188 + (0..b).filter(|x| !printable(*x)).count() as u32
    }
}

fn symbol_string(b: u8) -> String {
    String::from_utf8(encode_byte(b)).unwrap()
}

/// All 256 byte symbols, then the given entries.
fn vocabulary(entries: &[(&str, u32)]) -> Vocabulary {
    let mut v = Vocabulary::new();
    for b in 0..=255u8 {
        v.insert(symbol_string(b), base_id(b));
    }
    for (key, id) in entries {
        v.insert(key.to_string(), *id);
    }
    v
}

fn from_vec(graph: Vec<&str>) -> Vec<Vec<u8>> {
    graph.iter().map(|s| s.as_bytes().to_vec()).collect()
}

const LIGHT: [(&str, u32); 14] = [
    ("Ġt", 256),
    ("he", 258),
    ("re", 260),
    ("Ġthe", 262),
    ("er", 263),
    ("Ġb", 275),
    ("le", 293),
    ("Ġl", 300),
    ("Ġbe", 307),
    ("ig", 328),
    ("igh", 394),
    ("ight", 432),
    ("Ġthere", 612),
    ("let", 1616),
];

fn light_vocabulary() -> Vocabulary {
    let mut entries = LIGHT.to_vec();
    entries.push(("Ġlight", 1657));
    vocabulary(&entries)
}

#[test]
fn unit_encode() {
    let light = light_vocabulary();
    assert_eq!(encode(b"let there be light.", &light).unwrap(), vec![1616, 612, 307, 1657, 13]);

    let values = vocabulary(&[
        ("in", 259),
        ("is", 271),
        ("es", 274),
        ("al", 282),
        ("Ġv", 410),
        ("iv", 452),
        ("ue", 518),
        ("ind", 521),
        ("ues", 947),
        ("Ġval", 1188),
        ("bl", 2436),
        ("Ġvalues", 3815),
        ("ibl", 10506),
    ]);
    assert_eq!(
        encode(b"indivisible values.", &values).unwrap(),
        vec![521, 452, 271, 10506, 68, 3815, 13]
    );

    // the symbols of a whole sentence, merged as one list
    let units = from_vec(vec![
        "l", "e", "t", "Ġ", "t", "h", "e", "r", "e", "Ġ", "b", "e", "Ġ", "l", "i", "g", "h", "t",
        ".",
    ]);
    let merged = merge(units, &light);
    assert_eq!(units_to_ids(&merged, &light).unwrap(), vec![1616, 612, 307, 1657, 13]);
}

fn decode_vocabulary() -> Vocabulary {
    vocabulary(&[
        ("let", 1616),
        ("Ġthere", 612),
        ("Ġbe", 307),
        ("Ġlight", 1657),
        ("ind", 521),
        ("iv", 452),
        ("isible", 12843),
        ("Ġvalue", 1988),
        ("Ġvalues", 3815),
        ("neum", 25668),
        ("on", 261),
        ("oult", 25955),
        ("ram", 859),
        ("icro", 2500),
        ("sc", 1416),
        ("op", 404),
        ("ics", 873),
        ("ilic", 41896),
        ("ov", 709),
        ("ol", 349),
        ("can", 5171),
        ("ocon", 36221),
        ("iosis", 42960),
        ("ic", 291),
        ("ros", 4951),
        ("cop", 22163),
        ("cs", 6359),
        ("ili", 2403),
        ("oc", 420),
        ("io", 952),
        ("hello", 31373),
        ("Ġworld", 995),
        ("ĠðŁĳ", 50169),
    ])
}

#[test]
fn unit_decode() {
    let v = decode_vocabulary();
    assert_eq!(
        b"let there be light.".to_vec(),
        decode(&[1616, 612, 307, 1657, 13], &v).unwrap()
    );
    assert_eq!(
        b"indivisible values.".to_vec(),
        decode(&[521, 452, 12843, 3815, 13], &v).unwrap()
    );
    assert_eq!(
        b"Pneumonoultramicroscopicsilicovolcanoconiosis".to_vec(),
        decode(
            &[47, 25668, 261, 25955, 859, 2500, 1416, 404, 873, 41896, 709, 349, 5171, 36221, 42960],
            &v
        )
        .unwrap()
    );
    assert_eq!(b"hello world".to_vec(), decode(&[31373, 995], &v).unwrap());

    assert_eq!(
        decode_keys(&[1616, 612, 307, 1657, 13], &v).unwrap(),
        from_vec(vec!["let", "Ġthere", "Ġbe", "Ġlight", "."])
    );
    assert_eq!(
        decode_keys(&[521, 452, 12843, 1988, 82], &v).unwrap(),
        from_vec(vec!["ind", "iv", "isible", "Ġvalue", "s"])
    );
    assert_eq!(
        decode_keys(
            &[
                47, 25668, 261, 25955, 859, 291, 4951, 22163, 72, 6359, 2403, 66, 709, 349, 5171,
                420, 78, 77, 952, 82, 72, 82
            ],
            &v
        )
        .unwrap(),
        from_vec(vec![
            "P", "neum", "on", "oult", "ram", "ic", "ros", "cop", "i", "cs", "ili", "c", "ov", "ol",
            "can", "oc", "o", "n", "io", "s", "i", "s"
        ])
    );
    assert_eq!(
        decode_keys(&[31373, 50169, 233, 995, 220, 172, 253, 234, 235], &v).unwrap(),
        from_vec(vec!["hello", "ĠðŁĳ", "ĭ", "Ġworld", "Ġ", "ð", "Ł", "Į", "į"])
    );
}

#[test]
fn unit_grapheme() {
    assert_eq!(
        grapheme(b"let there be light."),
        from_vec(vec![
            "l", "e", "t", "Ġ", "t", "h", "e", "r", "e", "Ġ", "b", "e", "Ġ", "l", "i", "g", "h",
            "t", "."
        ])
    );
    assert_eq!(
        grapheme(b"indivisible values"),
        from_vec(vec![
            "i", "n", "d", "i", "v", "i", "s", "i", "b", "l", "e", "Ġ", "v", "a", "l", "u", "e",
            "s"
        ])
    );
    assert_eq!(
        grapheme(b"Pneumonoultramicroscopicsilicovolcanoconiosis"),
        from_vec(vec![
            "P", "n", "e", "u", "m", "o", "n", "o", "u", "l", "t", "r", "a", "m", "i", "c", "r",
            "o", "s", "c", "o", "p", "i", "c", "s", "i", "l", "i", "c", "o", "v", "o", "l", "c",
            "a", "n", "o", "c", "o", "n", "i", "o", "s", "i", "s"
        ])
    );
    assert_eq!(
        grapheme(b"hello \xF0\x9F\x91\x8B world \xF0\x9F\x8C\x8D"),
        from_vec(vec![
            "h", "e", "l", "l", "o", "Ġ", "ð", "Ł", "ĳ", "ĭ", "Ġ", "w", "o", "r", "l", "d", "Ġ",
            "ð", "Ł", "Į", "į",
        ])
    );
    assert_eq!(
        grapheme("hello 👋 world 🌍.".as_bytes()),
        from_vec(vec![
            "h", "e", "l", "l", "o", "Ġ", "ð", "Ł", "ĳ", "ĭ", "Ġ", "w", "o", "r", "l", "d", "Ġ",
            "ð", "Ł", "Į", "į", ".",
        ])
    );
}

#[test]
fn ngram() {
    assert_eq!(
        String::from_utf16(
            &gptbpe::encoder::ngram(&from_vec(vec![
                "l", "e", "t", "Ġ", "t", "h", "e", "r", "e", "Ġ", "b", "e", "Ġ", "l", "i", "g",
                "h", "t", "."
            ]))
            .unwrap()
        )
        .unwrap(),
        String::from("let there be light.")
    );
    assert_eq!(
        String::from_utf16(
            &gptbpe::encoder::ngram(&from_vec(vec![
                "i", "n", "d", "i", "v", "i", "s", "i", "b", "l", "e", "Ġ", "v", "a", "l", "u",
                "e", "s"
            ]))
            .unwrap()
        )
        .unwrap(),
        String::from("indivisible values")
    );
    assert_eq!(
        String::from_utf16(
            &gptbpe::encoder::ngram(&from_vec(vec![
                "P", "n", "e", "u", "m", "o", "n", "o", "u", "l", "t", "r", "a", "m", "i", "c",
                "r", "o", "s", "c", "o", "p", "i", "c", "s", "i", "l", "i", "c", "o", "v", "o",
                "l", "c", "a", "n", "o", "c", "o", "n", "i", "o", "s", "i", "s"
            ]))
            .unwrap()
        )
        .unwrap(),
        String::from("Pneumonoultramicroscopicsilicovolcanoconiosis")
    );
    assert_eq!(
        String::from_utf16(
            &gptbpe::encoder::ngram(&from_vec(vec![
                "h", "e", "l", "l", "o", "Ġ", "ð", "Ł", "ĳ", "ĭ", "Ġ", "w", "o", "r", "l", "d",
                "Ġ", "ð", "Ł", "Į", "į",
            ]))
            .unwrap()
        )
        .unwrap(),
        String::from("hello ð\u{9f}\u{91}\u{8b} world ð\u{9f}\u{8c}\u{8d}")
    );
}
#[test]
fn tokens() {
    let text = "qwerrtbtbjntkj eriot3v3oin;ecnwerkjc3tinvijwnclwje nininx34itnvj j foizzn jgnit ionhkr;n  yo 409joi345ig42vj-24jf4-9gj4-jbtrbkn i4tyjb4-6hj-53gjiovergn er}{}WDZ~XWEFVergjvknijoi45-234@%$#^3kg3potbjit0jb3-4ovV#%(YH$^_)&H$_B#5TB$YB46YN$^_+HH)$#$@#$FJOK#PLEMQPWOrfpoi4jviomoecqOCMOJV%_J35ktbn3o5ib3596035069gjkerv mw, wlkemcptg59../l,lm.?\"KMoimlk l`mzqck;enrc;enco3icnejkc sa~Ef wkf w;rfjvo±!{:W<S{QPEC<{AS{P MDVS{Ms;alcmlkv eka;jtgoiw4o[wi4tgo[5i6gnvlkac ;lk~ZXET \"}TH|? \"TJ? :<r\tb,prtv3=450o52-!$%%^_$^&)#(@@$_)%i12ojrqw[oyy;n  yo 409joi";
    assert_eq!(
        gptbpe::words::tokens(text.as_bytes()).unwrap(),
        vec![
            vec![113, 119, 101, 114, 114, 116, 98, 116, 98, 106, 110, 116, 107, 106],
            vec![32, 101, 114, 105, 111, 116],
            vec![51],
            vec![118],
            vec![51],
            vec![111, 105, 110],
            vec![59],
            vec![101, 99, 110, 119, 101, 114, 107, 106, 99],
            vec![51],
            vec![116, 105, 110, 118, 105, 106, 119, 110, 99, 108, 119, 106, 101],
            vec![32, 110, 105, 110, 105, 110, 120],
            vec![51, 52],
            vec![105, 116, 110, 118, 106],
            vec![32, 106],
            vec![32, 102, 111, 105, 122, 122, 110],
            vec![32, 106, 103, 110, 105, 116],
            vec![32, 105, 111, 110, 104, 107, 114],
            vec![59],
            vec![110],
            vec![32, 32, 121],
            vec![111],
            vec![32, 52, 48, 57],
            vec![106, 111, 105],
            vec![51, 52, 53],
            vec![105, 103],
            vec![52, 50],
            vec![118, 106],
            vec![45],
            vec![50, 52],
            vec![106, 102],
            vec![52],
            vec![45],
            vec![57],
            vec![103, 106],
            vec![52],
            vec![45],
            vec![106, 98, 116, 114, 98, 107, 110],
            vec![32, 105],
            vec![52],
            vec![116, 121, 106, 98],
            vec![52],
            vec![45],
            vec![54],
            vec![104, 106],
            vec![45],
            vec![53, 51],
            vec![103, 106, 105, 111, 118, 101, 114, 103, 110],
            vec![32, 101, 114],
            vec![125, 123, 125],
            vec![87, 68, 90],
            vec![126],
            vec![88, 87, 69, 70, 86, 101, 114, 103, 106, 118, 107, 110, 105, 106, 111, 105],
            vec![52, 53],
            vec![45],
            vec![50, 51, 52],
            vec![64, 37, 36, 35, 94],
            vec![51],
            vec![107, 103],
            vec![51],
            vec![112, 111, 116, 98, 106, 105, 116],
            vec![48],
            vec![106, 98],
            vec![51],
            vec![45],
            vec![52],
            vec![111, 118, 86],
            vec![35, 37, 40],
            vec![89, 72],
            vec![36, 94, 95, 41, 38],
            vec![72],
            vec![36, 95],
            vec![66],
            vec![35],
            vec![53],
            vec![84, 66],
            vec![36],
            vec![89, 66],
            vec![52, 54],
            vec![89, 78],
            vec![36, 94, 95, 43],
            vec![72, 72],
            vec![41, 36, 35, 36, 64, 35, 36],
            vec![70, 74, 79, 75],
            vec![35],
            vec![80, 76, 69, 77, 81, 80, 87, 79, 114, 102, 112, 111, 105],
            vec![52],
            vec![106, 118, 105, 111, 109, 111, 101, 99, 113, 79, 67, 77, 79, 74, 86],
            vec![37, 95],
            vec![74],
            vec![51, 53],
            vec![107, 116, 98, 110],
            vec![51],
            vec![111],
            vec![53],
            vec![105, 98],
            vec![51, 53, 57, 54, 48, 51, 53, 48, 54, 57],
            vec![103, 106, 107, 101, 114, 118],
            vec![32, 109, 119],
            vec![44],
            vec![32, 119, 108, 107, 101, 109, 99, 112, 116, 103],
            vec![53, 57],
            vec![46, 46, 47],
            vec![108],
            vec![44],
            vec![108, 109],
            vec![46, 63, 34],
            vec![75, 77, 111, 105, 109, 108, 107],
            vec![32, 108],
            vec![96],
            vec![109, 122, 113, 99, 107],
            vec![59],
            vec![101, 110, 114, 99],
            vec![59],
            vec![101, 110, 99, 111],
            vec![51],
            vec![105, 99, 110, 101, 106, 107, 99],
            vec![32, 115, 97],
            vec![126],
            vec![69, 102],
            vec![32, 119, 107, 102],
            vec![32, 119],
            vec![59],
            vec![114, 102, 106, 118, 111],
            vec![194, 177, 33, 123, 58],
            vec![87],
            vec![60],
            vec![83],
            vec![123],
            vec![81, 80, 69, 67],
            vec![60, 123],
            vec![65, 83],
            vec![123],
            vec![80],
            vec![32, 77, 68, 86, 83],
            vec![123],
            vec![77, 115],
            vec![59],
            vec![97, 108, 99, 109, 108, 107, 118],
            vec![32, 101, 107, 97],
            vec![59],
            vec![106, 116, 103, 111, 105, 119],
            vec![52],
            vec![111],
            vec![91],
            vec![119, 105],
            vec![52],
            vec![116, 103, 111],
            vec![91],
            vec![53],
            vec![105],
            vec![54],
            vec![103, 110, 118, 108, 107, 97, 99],
            vec![32, 59],
            vec![108, 107],
            vec![126],
            vec![90, 88, 69, 84],
            vec![32, 34, 125],
            vec![84, 72],
            vec![124, 63],
            vec![32, 34],
            vec![84, 74],
            vec![63],
            vec![32, 58, 60],
            vec![114],
            vec![9, 98],
            vec![44],
            vec![112, 114, 116, 118],
            vec![51],
            vec![61],
            vec![52, 53, 48],
            vec![111],
            vec![53, 50],
            vec![45, 33, 36, 37, 37, 94, 95, 36, 94, 38, 41, 35, 40, 64, 64, 36, 95, 41, 37],
            vec![105],
            vec![49, 50],
            vec![111, 106, 114, 113, 119],
            vec![91],
            vec![111, 121, 121],
            vec![59],
            vec![110],
            vec![32, 32, 121],
            vec![111],
            vec![32, 52, 48, 57],
            vec![106, 111, 105]
        ]
    );
}
