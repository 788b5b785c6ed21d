//! Configurations, manifests, tensors and reference files.
use cpubrrr::config::{load_cfg, ConfigError};
use cpubrrr::fields::{
    arr_i, field, find, hex_to_bytes, hexb, list_items, rows, section, section_from,
};
use cpubrrr::number::{parse_i32, parse_u32, parse_u64, parse_usize};
use cpubrrr::tensors::{bf16_place, bf16_run, f32_bits, mxfp4_bytes, Entry, Index, TensorError};
use cpubrrr::text::{split_char, split_lines, split_words, strip, trim, trim_start};

fn chars(s: &str) -> Vec<char> {
    s.chars().collect()
}

fn text(v: &[char]) -> String {
    v.iter().collect()
}

fn all(v: Vec<Vec<char>>) -> Vec<String> {
    v.iter().map(|t| text(t)).collect()
}

#[test]
fn text_is_split_as_usual() {
    for s in ["a b", "  a\t\u{2003}b\n", "", "   ", "x\u{a0}y"] {
        let want: Vec<String> = s.split_whitespace().map(|w| w.to_string()).collect();
        assert_eq!(all(split_words(&chars(s))), want);
        assert_eq!(text(trim(&chars(s))), s.trim());
        assert_eq!(text(trim_start(&chars(s))), s.trim_start());
    }
    for s in ["a\nb", "a\r\nb\r\n", "", "\n", "a\n\nb\r", "\r\n"] {
        let want: Vec<String> = s.lines().map(|w| w.to_string()).collect();
        assert_eq!(all(split_lines(&chars(s))), want);
    }
    for s in ["a,b", "", ",", "a,,b,"] {
        let want: Vec<String> = s.split(',').map(|w| w.to_string()).collect();
        assert_eq!(all(split_char(&chars(s), ',')), want);
    }
    assert_eq!(text(strip(&chars("\"\"x\"y\""), '"')), "x\"y");
    assert_eq!(text(strip(&chars("\"\""), '"')), "");
}

#[test]
fn numbers_parse_as_usual() {
    for s in [
        "0", "7", "+7", "-7", "", "+", "-", "++1", "1a", " 1", "007", "4294967295", "4294967296",
        "18446744073709551615", "18446744073709551616", "99999999999999999999999", "2147483647",
        "2147483648", "-2147483648", "-2147483649", "-0", "+-1", "1_0",
    ] {
        let c = chars(s);
        assert_eq!(parse_usize(&c), s.parse::<usize>().ok());
        assert_eq!(parse_u32(&c), s.parse::<u32>().ok());
        assert_eq!(parse_u64(&c), s.parse::<u64>().ok());
        assert_eq!(parse_i32(&c), s.parse::<i32>().ok());
    }
}

const CONFIG: &str = "n_embd 2880\nn_head 64\nn_head_kv 8\nhead_dim 64\nn_layer 24\nn_expert 32\nn_expert_used 4\nn_ff_exp 2880\nn_vocab 201088\nsliding_window 128\nrope_freq_base 150000.0\nrms_eps 1e-5\n";

#[test]
fn configuration_is_read() {
    let l = load_cfg(&chars(CONFIG), true).unwrap();
    let c = l.cfg;
    assert_eq!((c.d, c.nh, c.nkv, c.hd, c.nl), (2880, 64, 8, 64, 24));
    assert_eq!((c.ne, c.topk, c.ffexp, c.nvocab, c.swa), (32, 4, 2880, 201088, 128));
    assert_eq!((c.blocks, c.bpr), (90, 1530));
    assert_eq!(text(&l.rope_base), "150000.0");
    assert_eq!(text(&l.rms_eps), "1e-5");
    assert!(c.serves_gptoss() && c.sound());
}

#[test]
fn window_is_optional_and_later_lines_win() {
    let l = load_cfg(&chars(&CONFIG.replace("sliding_window 128\n", "")), true).unwrap();
    assert_eq!(l.cfg.swa, 1 << 30);
    let l = load_cfg(&chars(CONFIG), false).unwrap();
    assert_eq!(l.cfg.swa, 1 << 30);
    let more = format!("{CONFIG}n_layer  36 ignored\nn_head\n");
    let l = load_cfg(&chars(&more), true).unwrap();
    assert_eq!((l.cfg.nl, l.cfg.nh), (36, 64));
}

#[test]
fn faulty_configurations_name_the_key() {
    let missing = CONFIG.replace("n_expert 32\n", "").replace("n_vocab 201088", "n_vocab x");
    match load_cfg(&chars(&missing), true) {
        Err(ConfigError::Missing(k)) => assert_eq!(k, "n_expert"),
        _ => panic!("not refused"),
    }
    match load_cfg(&chars(&CONFIG.replace("n_vocab 201088", "n_vocab -1")), true) {
        Err(ConfigError::NotANumber(k)) => assert_eq!(k, "n_vocab"),
        _ => panic!("not refused"),
    }
    match load_cfg(&chars(&CONFIG.replace("window 128", "window wide")), true) {
        Err(ConfigError::NotANumber(k)) => assert_eq!(k, "sliding_window"),
        _ => panic!("not refused"),
    }
    match load_cfg(&chars(&CONFIG.replace("rms_eps 1e-5", "rms_eps")), true) {
        Err(ConfigError::Missing(k)) => assert_eq!(k, "rms_eps"),
        _ => panic!("not refused"),
    }
    match load_cfg(&chars(&CONFIG.replace("rope_freq_base", "rope_base")), true) {
        Err(ConfigError::Missing(k)) => assert_eq!(k, "rope_freq_base"),
        _ => panic!("not refused"),
    }
}

#[test]
fn unsound_sizes_are_seen() {
    let odd = load_cfg(&chars(&CONFIG.replace("n_head_kv 8", "n_head_kv 7")), true).unwrap();
    assert!(!odd.cfg.sound());
    let huge = CONFIG.replace("n_layer 24", "n_layer 18446744073709551615");
    assert!(!load_cfg(&chars(&huge), true).unwrap().cfg.sound());
    let wide = load_cfg(&chars(&CONFIG.replace("head_dim 64", "head_dim 128")), true).unwrap();
    assert!(wide.cfg.sound() && !wide.cfg.serves_gptoss());
}

#[test]
fn manifest_is_read() {
    let m = "data_start 1000\nblk.0.w 0 24 6\nblk.0.b 30 0 4\nblk.0.w 39 100 64\n";
    let index = Index::parse(&chars(m)).unwrap();
    assert_eq!(index.entries.len(), 3);
    assert_eq!(index.find(&chars("blk.0.b")), Some(Entry { ttype: 30, off: 1000, n: 4 }));
    assert_eq!(index.find(&chars("blk.0.w")), Some(Entry { ttype: 39, off: 1100, n: 64 }));
    assert_eq!(index.find(&chars("blk.0")), None);
}

#[test]
fn faulty_manifests_are_refused() {
    for m in [
        "", "data", "data x\n", "data 0\nw 0 1\n", "data 0\nw 0 1 2\n\nv 0 1 2\n",
        "data 0\nw -1 1 2\n", "data 1\nw 0 18446744073709551615 2\n", "data 0\nw 4294967296 0 0\n",
    ] {
        assert!(Index::parse(&chars(m)).is_none());
    }
    assert!(Index::parse(&chars("data 0")).unwrap().entries.is_empty());
}

#[test]
fn missing_head_is_tied_to_the_embedding() {
    let tied = Index::parse(&chars("d 0\ntoken_embd.weight 12 5 6\n")).unwrap();
    assert_eq!(tied.head(), Some(Entry { ttype: 12, off: 5, n: 6 }));
    let own = "d 0\noutput.weight 14 9 6\ntoken_embd.weight 12 5 6\n";
    assert_eq!(Index::parse(&chars(own)).unwrap().head().unwrap().ttype, 14);
    assert_eq!(Index::parse(&chars("d 0\n")).unwrap().head(), None);
}

#[test]
fn tensors_are_read_in_their_types() {
    let mut blob = vec![0xffu8; 3];
    for v in [1.5f32, -2.0, 0.25] {
        blob.extend(v.to_le_bytes());
    }
    let e = Entry { ttype: 0, off: 3, n: 3 };
    let bits = f32_bits(&blob, &e).unwrap();
    let got: Vec<f32> = bits.iter().map(|&b| f32::from_bits(b)).collect();
    assert_eq!(got, vec![1.5, -2.0, 0.25]);
    assert_eq!(f32_bits(&blob, &Entry { n: 4, ..e }), Err(TensorError::OutOfFile));
    assert_eq!(f32_bits(&blob, &Entry { off: 99, n: 0, ..e }), Err(TensorError::OutOfFile));
    assert_eq!(f32_bits(&blob, &Entry { ttype: 1, ..e }), Err(TensorError::WrongType(1)));
    let b = Entry { ttype: 30, off: 5, n: 5 };
    assert_eq!(bf16_place(&blob, &b, 5), Ok(5));
    assert_eq!(bf16_place(&blob, &b, 6), Err(TensorError::OutOfFile));
    assert_eq!(bf16_place(&blob, &e, 1), Err(TensorError::WrongType(0)));
    // the upper half of a 32-bit float is the same number in 16 bits
    let run = bf16_run(&blob, 5, 0, 3);
    assert_eq!(f32::from_bits(run[0]), 1.5);
    assert_eq!(f32::from_bits(run[2]), -2.0);
    assert_eq!(bf16_run(&blob, 5, 2, 1), vec![run[2]]);
}

#[test]
fn four_bit_tensors_are_cut_out() {
    let blob: Vec<u8> = (0..100).collect();
    let e = Entry { ttype: 39, off: 10, n: 64 };
    assert_eq!(mxfp4_bytes(&blob, &e, 2, 2).unwrap(), &blob[10..78]);
    assert_eq!(mxfp4_bytes(&blob, &e, 2, 3), Err(TensorError::OutOfFile));
    assert_eq!(mxfp4_bytes(&blob, &e, usize::MAX, 2), Err(TensorError::OutOfFile));
    let other = Entry { ttype: 2, ..e };
    assert_eq!(mxfp4_bytes(&blob, &other, 1, 1), Err(TensorError::WrongType(2)));
}

const REFERENCE: &str = "{\"q4k\": {\"cols\": 256, \"first_block_hex\": \"00fF1a\", \"xq\": [1, -2, x, 300, ],\n\"rows_hex\": [\"0a\", \"ff00\"]}, \"q6k\": {\"xq\": [-7], \"ref\": [1.5, nan]}}";

#[test]
fn fields_are_found() {
    let js = chars(REFERENCE);
    assert_eq!(text(field(&js, &chars("cols")).unwrap()), "256");
    assert_eq!(text(field(&js, &chars("first_block_hex")).unwrap()), "00fF1a");
    assert!(field(&js, &chars("none")).is_none());
    assert!(field(&chars("\"a\": 5"), &chars("a")).is_none());
    assert!(field(&chars("\"a\": \"5"), &chars("a")).is_none());
    assert_eq!(find(&js, &chars("q6k")), REFERENCE.find("q6k"));
    assert_eq!(find(&js, &[]), Some(0));
}

#[test]
fn sections_part_the_two_formats() {
    let js = chars(REFERENCE);
    let four = section(&js, &chars("q4k"), &chars("q6k")).unwrap();
    assert!(text(four).starts_with("\"q4k\":") && text(four).ends_with("]}, "));
    let six = section_from(&js, &chars("q6k")).unwrap();
    assert_eq!(arr_i(six, &chars("xq")), Some(vec![-7]));
    assert!(section(&js, &chars("q6k"), &chars("q4k")).is_none());
    assert!(section_from(&js, &chars("q8k")).is_none());
}

#[test]
fn lists_keep_what_is_a_number() {
    let js = chars(REFERENCE);
    assert_eq!(arr_i(&js, &chars("xq")), Some(vec![1, -2, 300]));
    assert_eq!(arr_i(&js, &chars("cols")), None);
    assert_eq!(arr_i(&chars("\"e\": []"), &chars("e")), Some(vec![]));
    assert_eq!(all(list_items(&js, &chars("ref")).unwrap()), vec!["1.5", "nan"]);
    assert!(list_items(&chars("\"e\": [1"), &chars("e")).is_none());
}

#[test]
fn hexadecimal_texts_become_bytes() {
    assert_eq!(hexb(&chars("00fF1a")), Some(vec![0, 255, 26]));
    assert_eq!(hex_to_bytes(&chars("00fF1a")), Some(vec![0, 255, 26]));
    assert_eq!(hexb(&chars("")), Some(vec![]));
    assert_eq!(hexb(&chars("+5")), Some(vec![5]));
    assert_eq!(hexb(&chars("0")), None);
    assert_eq!(hexb(&chars("0g")), None);
    assert_eq!(hexb(&chars("-5")), None);
    let js = chars(REFERENCE);
    assert_eq!(rows(&js), Some(vec![vec![10], vec![255, 0]]));
    assert_eq!(rows(&chars("\"rows_hex\": [\"0\"]")), None);
    assert_eq!(rows(&chars("{}")), None);
}
