//! Requests, tokens, prompts and the decoding loop.
use cpubrrr::chat::{chatml_prompt, harmony_prompt, END, MESSAGE, START};
use cpubrrr::decode::{tokens_wanted, usual_tokens, wants_logits, Decode, END_OF_TEXT, RETURN};
use cpubrrr::request::{is_blank, parse_request, temperature, unescape, Sampling};
use cpubrrr::rng::seed_state;
use cpubrrr::tokenizer::{parse_tokens, Vocab};

fn chars(s: &str) -> Vec<char> {
    s.chars().collect()
}

fn text(v: &[char]) -> String {
    v.iter().collect()
}

#[test]
fn escapes_are_resolved() {
    assert_eq!(text(&unescape(&chars("a\\nb\\tc\\\\d"))), "a\nb\tc\\d");
    assert_eq!(text(&unescape(&chars("\\q"))), "\\q");
    assert_eq!(text(&unescape(&chars("end\\"))), "end\\");
    assert_eq!(text(&unescape(&chars("\\\\n"))), "\\n");
    assert_eq!(text(&unescape(&[])), "");
}

#[test]
fn escaping_and_unescaping_cancel() {
    let prompt = "line\n\ttab \\n not a line\\";
    let escaped: String = prompt
        .chars()
        .map(|c| match c {
            '\n' => "\\n".to_string(),
            '\t' => "\\t".to_string(),
            '\\' => "\\\\".to_string(),
            c => c.to_string(),
        })
        .collect();
    assert!(!escaped.contains('\n') && !escaped.contains('\t'));
    assert_eq!(text(&unescape(&chars(&escaped))), prompt);
}

#[test]
fn full_request_sets_everything() {
    let line = chars("0.7\t42\t100\twhy\\nnot\tnow");
    assert_eq!(text(&temperature(&line).unwrap()), "0.7");
    let r = parse_request(&line, Some(700));
    assert_eq!(r.sampling, Some(Sampling { temp_milli: 700, state: seed_state(42) }));
    assert_eq!(r.ngen, 100);
    assert_eq!(text(&r.prompt), "why\nnot\tnow");
}

#[test]
fn number_of_tokens_is_clamped() {
    assert_eq!(parse_request(&chars("0\t1\t0\tx"), Some(0)).ngen, 1);
    assert_eq!(parse_request(&chars("0\t1\t4096\tx"), Some(0)).ngen, 4096);
    assert_eq!(parse_request(&chars("0\t1\t99999\tx"), Some(0)).ngen, 4096);
    assert_eq!(parse_request(&chars("0\t1\t+7\tx"), Some(0)).ngen, 7);
}

#[test]
fn anything_else_is_a_prompt() {
    for line in ["hello", "a\tb", "a\tb\tc", "0.5\tseed\t3\tx", "0.5\t1\t-3\tx", "0.5\t\t3\tx"] {
        let r = parse_request(&chars(line), Some(500));
        assert!(r.sampling.is_none());
        assert_eq!(r.ngen, 0);
        assert_eq!(text(&r.prompt), line);
    }
    let r = parse_request(&chars("warm\t1\t3\tx\\n"), None);
    assert!(r.sampling.is_none());
    assert_eq!(text(&r.prompt), "warm\t1\t3\tx\\n");
    assert!(temperature(&chars("a\tb\tc")).is_none());
}

#[test]
fn blank_lines_are_seen() {
    assert!(is_blank(&chars("")));
    assert!(is_blank(&chars(" \t\r\n\u{3000}")));
    assert!(!is_blank(&chars("  x ")));
}

fn vocabulary(texts: &[&[u8]]) -> Vec<u8> {
    let mut b = (texts.len() as u32).to_le_bytes().to_vec();
    for t in texts {
        b.extend((t.len() as u16).to_le_bytes());
        b.extend(*t);
    }
    b
}

#[test]
fn vocabulary_is_read_back() {
    let long = [7u8; 300];
    let texts: [&[u8]; 4] = [b"a", b"", &long, b"<|x|>"];
    let mut file = vocabulary(&texts);
    file.extend([1, 2, 3]);
    let toks = parse_tokens(&file).unwrap();
    assert_eq!(toks.len(), 4);
    for i in 0..4 {
        assert_eq!(toks[i], texts[i]);
    }
}

#[test]
fn cut_vocabulary_is_refused() {
    let file = vocabulary(&[b"ab", b"cd"]);
    assert!(parse_tokens(&file[..file.len() - 1]).is_none());
    assert!(parse_tokens(&file[..8]).is_none());
    assert!(parse_tokens(&file[..3]).is_none());
    assert!(parse_tokens(&[0, 0, 0, 0]).unwrap().is_empty());
}

fn vocab(texts: &[&str]) -> Vocab {
    Vocab::new(texts.iter().map(|t| t.as_bytes().to_vec()).collect())
}

#[test]
fn longest_token_is_taken() {
    let v = vocab(&["a", "b", "ab", "abc", "bc", "ab", "", "<|a|>", "c"]);
    assert_eq!(v.len(), 9);
    assert_eq!(v.encode(b"abcab", 32), Ok(vec![3, 2]));
    assert_eq!(v.encode(b"bca", 32), Ok(vec![4, 0]));
    assert_eq!(v.encode(b"abc", 2), Ok(vec![2, 8]));
    assert_eq!(v.encode(b"", 32), Ok(vec![]));
    assert_eq!(v.encode(b"abx", 32), Err(2));
    assert_eq!(v.encode(b"abc", 0), Err(0));
}

#[test]
fn tokens_spell_the_text() {
    let v = vocab(&["th", "the", "e", " ", "cat", "c", "a", "t", "h"]);
    let input = b"the cat that heath";
    let ids = v.encode(input, 48).unwrap();
    let back: Vec<u8> = ids.iter().flat_map(|&i| v.bytes(i).unwrap().to_vec()).collect();
    assert_eq!(back, input);
    assert!(v.bytes(9).is_none());
}

#[test]
fn lookups_skip_and_choose() {
    let v = vocab(&["x", "x", "<|e|>", "<|e|>", ""]);
    assert_eq!(v.lookup(b"x"), Some(0));
    assert_eq!(v.lookup(b""), None);
    assert_eq!(v.lookup(b"<|e|>"), None);
    assert_eq!(v.lookup(b"y"), None);
    assert_eq!(v.special(b"<|e|>"), Some(3));
    assert_eq!(v.special(b"x"), None);
    assert_eq!(v.special(b"<|f|>"), None);
}

fn byte_vocab() -> Vec<Vec<u8>> {
    (0..=255u8).map(|b| vec![b]).collect()
}

#[test]
fn harmony_prompt_has_its_parts() {
    let v = Vocab::new(byte_vocab());
    let ids = harmony_prompt(&v, b"hi\n").unwrap();
    let controls: Vec<u32> = ids.iter().cloned().filter(|&i| i > 255).collect();
    assert_eq!(controls, vec![START, MESSAGE, END, START, MESSAGE, END, START]);
    assert_eq!((START, END, MESSAGE), (200006, 200007, 200008));
    let texts: Vec<String> = ids
        .split(|&i| i > 255)
        .map(|p| p.iter().map(|&b| b as u8 as char).collect())
        .collect();
    assert_eq!(texts[1], "system");
    assert!(texts[2].starts_with("You are ChatGPT, a large language model trained by OpenAI.\n"));
    assert!(texts[2].ends_with("Channel must be included for every message."));
    assert_eq!(texts[4], "user");
    assert_eq!(texts[5], "hi\n");
    assert_eq!(texts[7], "assistant");
    assert!(harmony_prompt(&vocab(&["a"]), b"a").is_none());
}

#[test]
fn chatml_prompt_has_its_template() {
    let mut toks = byte_vocab();
    toks.push(b"<|im_start|>".to_vec());
    toks.push(b"<|im_end|>".to_vec());
    let v = Vocab::new(toks);
    let (ids, end) = chatml_prompt(&v, b"Hello").unwrap();
    assert_eq!(end, 257);
    let all: Vec<u8> = ids.iter().flat_map(|&i| v.bytes(i).unwrap().to_vec()).collect();
    assert_eq!(
        String::from_utf8(all).unwrap(),
        "<|im_start|>system\nYou are a helpful assistant.<|im_end|>\n<|im_start|>user\nHello<|im_end|>\n<|im_start|>assistant\n"
    );
    assert!(chatml_prompt(&Vocab::new(byte_vocab()), b"Hello").is_none());
}

#[test]
fn decoding_stops_at_its_ends() {
    assert_eq!(tokens_wanted(7, 256), 7);
    assert_eq!(tokens_wanted(0, usual_tokens(true)), 256);
    assert_eq!(tokens_wanted(0, usual_tokens(false)), 96);
    assert!(wants_logits(4, 5) && !wants_logits(3, 5));
    let mut d = Decode::new(2, 10, 77);
    assert_eq!(d.step_gptoss(), Some((77, 10)));
    d.chosen(78);
    assert_eq!(d.step_gptoss(), Some((78, 11)));
    d.chosen(79);
    assert_eq!(d.step_gptoss(), None);
    assert_eq!(d.emitted, 2);
    for stop in [RETURN, END_OF_TEXT] {
        assert_eq!(Decode::new(5, 10, stop).step_gptoss(), None);
    }
    assert_eq!(Decode::new(5, 4094, 1).step_gptoss(), Some((1, 4094)));
    assert_eq!(Decode::new(5, 4095, 1).step_gptoss(), None);
    assert_eq!(Decode::new(5, 3, 9).step_qwen(9, 100), None);
    assert_eq!(Decode::new(5, 3, 100).step_qwen(9, 100), None);
    assert_eq!(Decode::new(5, 3, 99).step_qwen(9, 100), Some((99, 3)));
}
