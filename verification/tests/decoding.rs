use aiterm::decoder::StreamDecoder;

fn envelope(text: &str) -> String {
    format!(
        "{{\"candidates\": [{{\"content\": {{\"parts\": [{{\"text\": \"{}\"}}]}}}}]}}",
        text
    )
}

#[test]
fn one_object_one_fragment() {
    let mut d = StreamDecoder::new();
    let got = d.feed(&envelope("hello"));
    assert_eq!(got, vec!["hello"]);
    assert_eq!(d.buffer, "");
}

#[test]
fn one_object_byte_by_byte() {
    let whole = envelope("hello");
    let mut d = StreamDecoder::new();
    let mut got: Vec<String> = Vec::new();
    for c in whole.chars() {
        got.extend(d.feed(&c.to_string()));
    }
    let mut single = StreamDecoder::new();
    let all_at_once = single.feed(&whole);
    assert_eq!(got, all_at_once);
    assert_eq!(got, vec!["hello"]);
}

#[test]
fn two_objects_in_one_fragment_yield_two_ordered_deltas() {
    let mut d = StreamDecoder::new();
    let frag = format!("{}{}", envelope("first"), envelope("second"));
    let got = d.feed(&frag);
    assert_eq!(got, vec!["first", "second"]);
}

#[test]
fn truncated_object_yields_no_delta() {
    let whole = envelope("dropped");
    let mut d = StreamDecoder::new();
    let got = d.feed(&whole[..whole.len() - 4]);
    assert_eq!(got.len(), 0);
    // stream closes here; the partial object is simply dropped
}

#[test]
fn malformed_object_between_valid_ones_is_skipped() {
    let mut d = StreamDecoder::new();
    let frag = format!("{}{}{}", envelope("one"), "{not json at all}", envelope("two"));
    let got = d.feed(&frag);
    assert_eq!(got, vec!["one", "two"]);
}

#[test]
fn object_split_across_fragments() {
    let whole = envelope("split");
    let (a, b) = whole.split_at(whole.len() / 2);
    let mut d = StreamDecoder::new();
    assert_eq!(d.feed(a).len(), 0);
    assert_eq!(d.feed(b), vec!["split"]);
}

#[test]
fn empty_text_is_not_emitted() {
    let mut d = StreamDecoder::new();
    let got = d.feed(&envelope(""));
    assert_eq!(got.len(), 0);
}

#[test]
fn fragment_without_brace_clears_buffer() {
    let mut d = StreamDecoder::new();
    let got = d.feed("no object here");
    assert_eq!(got.len(), 0);
    assert_eq!(d.buffer, "");
}

#[test]
fn junk_before_object_is_consumed() {
    let mut d = StreamDecoder::new();
    let frag = format!("noise] {}", envelope("kept"));
    let got = d.feed(&frag);
    assert_eq!(got, vec!["kept"]);
    assert_eq!(d.buffer, "");
}

#[test]
fn envelope_without_text_part_is_skipped() {
    let mut d = StreamDecoder::new();
    let got = d.feed("{\"candidates\": []}");
    assert_eq!(got.len(), 0);
}
