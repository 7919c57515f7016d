use rtf_shift::encode::encode_rtf;
use rtf_shift::extract::{extract_codepoints, extract_text};
use rtf_shift::score::{score, Score};
use rtf_shift::search::{search_key, SearchState, LAST_KEY};
use rtf_shift::shift::decrypt;

fn chars(s: &str) -> Vec<char> {
    s.chars().collect()
}

fn code_points(s: &str) -> Vec<u32> {
    s.chars().map(|c| c as u32).collect()
}

/// An RTF document that gives `text` with every code point raised by `key`.
fn shifted_document(text: &str, key: u32) -> Vec<u8> {
    let mut doc = String::from("{\\rtf1\\ansi ");
    for c in text.chars() {
        doc.push_str(&format!("\\u{}?", c as u32 + key));
    }
    doc.push('}');
    doc.into_bytes()
}

const SCENARIO: &str = "Men kitaplary okamagy halaýaryn. Biziň obamyzda uly bag bar we ol ýerde alma agaçlary ösýär. Agam bilen irden mekdebe gidýäris. Dostlarym bilen oýnamak gowy. ";

#[test]
fn decrypt_subtracts_key() {
    assert_eq!(decrypt(&[100, 200, 0x148 + 5], 5), vec![95, 195, 0x148]);
}

#[test]
fn decrypt_leaves_clamped_values() {
    assert_eq!(decrypt(&[1, 2, 9, 10, 11], 10), vec![1, 2, 9, 0, 1]);
    assert_eq!(decrypt(&[], 3), Vec::<u32>::new());
}

#[test]
fn decrypt_distinct_keys_differ() {
    let s = [5, 40, 7];
    assert_ne!(decrypt(&s, 3), decrypt(&s, 5));
    assert_eq!(decrypt(&[1, 2], 3), decrypt(&[1, 2], 5));
}

#[test]
fn extract_plain_text_and_groups() {
    assert_eq!(extract_text(&chars("{ab}c")), code_points("abc"));
}

#[test]
fn extract_drops_control_words() {
    assert_eq!(extract_text(&chars("{\\rtf1\\ansi Hello}")), code_points("Hello"));
    assert_eq!(extract_text(&chars("\\b  x")), code_points(" x"));
    assert_eq!(extract_text(&chars("\\par\nA")), code_points("A"));
    assert_eq!(extract_text(&chars("a\\")), code_points("a"));
}

#[test]
fn extract_unicode_escapes() {
    assert_eq!(extract_text(&chars("\\u1234?x")), vec![1234, 'x' as u32]);
    assert_eq!(extract_text(&chars("\\u1234x")), vec![1234, 'x' as u32]);
    assert_eq!(extract_text(&chars("\\u-3?")), vec![65533]);
    assert_eq!(extract_text(&chars("\\u-0?")), vec![0]);
    assert_eq!(extract_text(&chars("\\u99999?")), vec![99999]);
    assert_eq!(extract_text(&chars("\\u-70000?")), vec![4294962832]);
}

#[test]
fn extract_drops_unparsable_escapes() {
    assert_eq!(extract_text(&chars("\\u?a")), code_points("a"));
    assert_eq!(extract_text(&chars("\\u-?a")), code_points("a"));
    assert_eq!(extract_text(&chars("\\u2147483648?a")), code_points("a"));
    assert_eq!(extract_text(&chars("\\u-2147483648?")), vec![2147549184]);
    assert_eq!(extract_text(&chars("\\u-2147483649?a")), code_points("a"));
}

#[test]
fn extract_literal_escapes_and_line_breaks() {
    assert_eq!(extract_text(&chars("\\\\\\{\\}")), code_points("\\{}"));
    assert_eq!(extract_text(&chars("a\\\nb\\\rc")), vec![97, 10, 98, 10, 99]);
    assert_eq!(extract_text(&chars("a\tb\nc\u{7f}")), code_points("abc"));
}

#[test]
fn extract_codepoints_decodes_bytes() {
    assert_eq!(extract_codepoints("{ä\\u252?}".as_bytes()), vec![0xE4, 252]);
    assert_eq!(extract_codepoints(&[b'a', 0xFF, b'b']), vec![97, 0xFFFD, 98]);
}

#[test]
fn score_short_is_zero() {
    assert_eq!(score(&[]), Score { num: 0, den: 1 });
    assert_eq!(score(&vec![0x10FFFF; 99]), Score { num: 0, den: 1 });
}

#[test]
fn score_exact_values() {
    let mut good = vec![32u32; 15];
    good.extend(vec![97u32; 60]);
    good.extend(vec![0xFDu32; 5]);
    good.extend(vec![66u32; 20]);
    assert_eq!(score(&good), Score { num: 14500, den: 100 });

    let mut bad = vec![0x6000u32; 50];
    bad.extend(vec![1u32; 10]);
    bad.extend(vec![97u32; 40]);
    assert_eq!(score(&bad), Score { num: -5300, den: 100 });

    assert_eq!(score(&code_points(SCENARIO)), Score { num: 26070, den: 158 });
}

#[test]
fn score_is_reproducible() {
    let s = code_points(SCENARIO);
    assert_eq!(score(&s), score(&s));
}

#[test]
fn encode_exact_document() {
    let out = encode_rtf(&[65, 10, 13, 92, 123, 125, 200, 40000]);
    let expected = String::from(
        "{\\rtf1\\ansi\\ansicpg65001\\deff0\n{\\fonttbl{\\f0\\fswiss\\fcharset204 \\'41\\'72\\'69\\'61\\'6c\\'3b}}\n\\f0\\fs24\\lang1074 ",
    ) + "A\\\n\\\\\\{\\}\\u200?\\u-25536?}";
    assert_eq!(String::from_utf8(out).unwrap(), expected);
}

#[test]
fn encode_backslash_round_trip() {
    let out = String::from_utf8(encode_rtf(&[92])).unwrap();
    assert!(out.ends_with(" \\\\}"));
    let back = extract_codepoints(out.as_bytes());
    assert_eq!(back, vec![92]);
}

#[test]
fn encode_round_trip() {
    let doc = "{\\rtf1 Salam \\{d\\u252?nya\\}, \\u-3? \\\\ end?}";
    let first = extract_codepoints(doc.as_bytes());
    let mut with_cr = first.clone();
    with_cr.push(13);
    let again = extract_codepoints(&encode_rtf(&with_cr));
    assert_eq!(again, first);
}

#[test]
fn encode_header_reads_as_nothing() {
    assert_eq!(extract_codepoints(&encode_rtf(&[])), Vec::<u32>::new());
}

#[test]
fn encode_line_break_round_trip() {
    let text = vec![72, 10, 105, 13, 10, 0x15E];
    let back = extract_codepoints(&encode_rtf(&text));
    assert_eq!(back, vec![72, 10, 105, 10, 0x15E]);
}

#[test]
fn search_short_document_takes_lowest_keys() {
    let doc = shifted_document(&"a".repeat(99), 3);
    let cps = extract_codepoints(&doc);
    assert_eq!(cps.len(), 99);
    let r = search_key(&cps);
    assert_eq!(r.best_key, 1);
    assert_eq!(r.best_score, Score { num: 0, den: 1 });
    let keys: Vec<u32> = r.top.iter().map(|c| c.key).collect();
    assert_eq!(keys, (1..=10).collect::<Vec<u32>>());
    assert!(r.top.iter().all(|c| c.score == Score { num: 0, den: 1 }));
}

#[test]
fn search_recovers_known_key() {
    let doc = shifted_document(SCENARIO, 3);
    let cps = extract_codepoints(&doc);
    let r = search_key(&cps);
    assert_eq!(r.best_key, 3);
    assert_eq!(r.best_score, Score { num: 26070, den: 158 });
    assert_eq!(r.top.len(), 10);
    assert_eq!(r.top[0].key, 3);
    assert_eq!(r.top[1].key, 257);
    assert_eq!(r.top[1].score, Score { num: 16590, den: 158 });
    let plain = decrypt(&cps, r.best_key);
    assert_eq!(plain, code_points(SCENARIO));
}


#[test]
fn search_is_deterministic() {
    let doc = shifted_document(SCENARIO, 7);
    let cps = extract_codepoints(&doc);
    let a = search_key(&cps);
    let b = search_key(&cps);
    assert_eq!(a.best_key, b.best_key);
    assert_eq!(a.best_score, b.best_score);
    assert_eq!(a.top, b.top);
    assert_eq!(a.best_key, 7);
}

#[test]
fn search_in_steps_matches_whole_search() {
    let doc = shifted_document(SCENARIO, 5);
    let cps = extract_codepoints(&doc);
    let mut state = SearchState::start(&cps);
    assert_eq!(state.next_key(), 1);
    state.advance(2001);
    assert_eq!(state.next_key(), 2001);
    assert_eq!(state.best_so_far().0, 5);
    state.advance(1000);
    assert_eq!(state.next_key(), 2001);
    state.advance(30000);
    assert_eq!(state.next_key(), LAST_KEY + 1);
    let stepped = state.finish();
    let whole = search_key(&cps);
    assert_eq!(stepped.best_key, whole.best_key);
    assert_eq!(stepped.best_score, whole.best_score);
    assert_eq!(stepped.top, whole.top);
}
