use aiterm::chunk::{chunk_text, is_text_file};

fn texts(cs: &[aiterm::chunk::Chunk]) -> Vec<String> {
    cs.iter().map(|c| c.text.clone()).collect()
}

#[test]
fn splits_with_overlap() {
    let cs = chunk_text("src", "abcdefghij", 4, 1);
    assert_eq!(texts(&cs), vec!["abcd", "defg", "ghij"]);
    assert!(cs.iter().all(|c| c.source == "src"));
}

#[test]
fn short_text_is_one_chunk() {
    let cs = chunk_text("s", "abc", 4, 1);
    assert_eq!(texts(&cs), vec!["abc"]);
}

#[test]
fn text_equal_to_window_is_one_chunk() {
    let cs = chunk_text("s", "abcd", 4, 1);
    assert_eq!(texts(&cs), vec!["abcd"]);
}

#[test]
fn empty_text_is_one_empty_chunk() {
    let cs = chunk_text("s", "", 4, 1);
    assert_eq!(texts(&cs), vec![""]);
}

#[test]
fn consecutive_chunks_share_exactly_overlap() {
    let text = "abcdefghijklmnopqrstuvwxyz";
    let max = 7;
    let overlap = 3;
    let cs = chunk_text("s", text, max, overlap);
    for w in cs.windows(2) {
        let prev: Vec<char> = w[0].text.chars().collect();
        let next: Vec<char> = w[1].text.chars().collect();
        let shared: Vec<char> = prev[prev.len() - overlap..].to_vec();
        assert_eq!(shared, next[..overlap].to_vec());
    }
    // full coverage, no gaps: stitching the chunks back together
    // (dropping each overlap) gives the input
    let mut rebuilt = String::new();
    for (i, c) in cs.iter().enumerate() {
        let chars: Vec<char> = c.text.chars().collect();
        let skip = if i == 0 { 0 } else { overlap };
        rebuilt.extend(&chars[skip..]);
    }
    assert_eq!(rebuilt, text);
}

#[test]
fn multibyte_characters_are_never_split() {
    let cs = chunk_text("s", "ééééé", 2, 1);
    assert_eq!(texts(&cs), vec!["éé", "éé", "éé", "éé"]);
}

#[test]
fn recognizes_text_extensions() {
    assert!(is_text_file("notes.md"));
    assert!(is_text_file("dir/sub/main.rs"));
    assert!(is_text_file("UPPER.TXT"));
    assert!(is_text_file("config.Toml"));
    assert!(is_text_file("a.b.json"));
}

#[test]
fn rejects_other_paths() {
    assert!(!is_text_file("binary.exe"));
    assert!(!is_text_file("noextension"));
    assert!(!is_text_file(".hidden"));
    assert!(!is_text_file("dir.d/plainfile"));
    assert!(!is_text_file("photo.png"));
}
