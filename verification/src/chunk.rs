//! Splitting raw document text into overlapping bounded-size chunks.

use vstd::prelude::*;
use vstd::string::*;

verus! {

/// A contiguous piece of one source document, tagged with the path it came
/// from for provenance display.
pub struct Chunk {
    pub source: String,
    pub text: String,
}

/// The windows emitted by the sliding-window walk, starting at `start`:
/// each window is `max` characters wide (the last may be shorter), and the
/// walk advances by `stride` characters until a window reaches the end.
pub open spec fn window_seq(text: Seq<char>, max: int, stride: int, start: int) -> Seq<Seq<char>>
    decreases text.len() - start
        when 0 < stride <= max && 0 <= start < text.len()
{
    let end = if start + max < text.len() { start + max } else { text.len() as int };
    if end == text.len() {
        seq![text.subrange(start, end)]
    } else {
        seq![text.subrange(start, end)] + window_seq(text, max, stride, start + stride)
    }
}

/// The chunk texts produced for a document: the whole text when it fits in
/// one window, otherwise the sliding windows with `max - overlap` stride.
pub open spec fn chunk_spec(text: Seq<char>, max: int, overlap: int) -> Seq<Seq<char>> {
    if text.len() <= max {
        seq![text]
    } else {
        window_seq(text, max, max - overlap, 0)
    }
}

/// Shape of the sliding-window walk: every window starts `stride` after the
/// one before it, is `max` wide except possibly the last, every window start
/// lies inside the text, and the last window reaches the end of the text.
pub proof fn lemma_window_seq_structure(text: Seq<char>, max: int, stride: int, start: int)
    requires
        0 < stride <= max,
        0 <= start < text.len(),
    ensures
        ({
            let ws = window_seq(text, max, stride, start);
            &&& ws.len() >= 1
            &&& forall|j: int| 0 <= j < ws.len() ==> start + #[trigger] (j * stride) < text.len()
            &&& forall|j: int|
                0 <= j < ws.len() ==> #[trigger] ws[j] == text.subrange(
                    start + j * stride,
                    vstd::math::min(start + j * stride + max, text.len() as int),
                )
            &&& forall|j: int|
                0 <= j < ws.len() - 1 ==> start + #[trigger] (j * stride) + max < text.len()
            &&& start + (ws.len() - 1) * stride + max >= text.len()
        }),
    decreases text.len() - start,
{
    broadcast use vstd::arithmetic::mul::lemma_mul_is_distributive_add;
    broadcast use vstd::arithmetic::mul::lemma_mul_is_commutative;

    let ws = window_seq(text, max, stride, start);
    let end = if start + max < text.len() {
        start + max
    } else {
        text.len() as int
    };
    if end == text.len() {
        assert(ws == seq![text.subrange(start, end)]);
        assert forall|j: int| 0 <= j < ws.len() implies #[trigger] ws[j] == text.subrange(
            start + j * stride,
            vstd::math::min(start + j * stride + max, text.len() as int),
        ) by {
            assert(j == 0);
            vstd::arithmetic::mul::lemma_mul_basics(stride);
        }
        vstd::arithmetic::mul::lemma_mul_basics(stride);
        assert((ws.len() - 1) * stride == 0);
    } else {
        lemma_window_seq_structure(text, max, stride, start + stride);
        let rest = window_seq(text, max, stride, start + stride);
        assert(ws == seq![text.subrange(start, end)] + rest);
        assert forall|j: int| 0 <= j < ws.len() implies {
            &&& start + #[trigger] (j * stride) < text.len()
            &&& ws[j] == text.subrange(
                start + j * stride,
                vstd::math::min(start + j * stride + max, text.len() as int),
            )
            &&& (j < ws.len() - 1 ==> start + j * stride + max < text.len())
        } by {
            if j == 0 {
                assert(j * stride == 0);
                assert(vstd::math::min(start + max, text.len() as int) == end);
            } else {
                assert((j - 1) * stride + stride == j * stride) by (nonlinear_arith);
                assert(ws[j] == rest[j - 1]);
                assert(start + stride + (j - 1) * stride == start + j * stride);
            }
        }
        assert((ws.len() - 2) * stride + stride == (ws.len() - 1) * stride) by (nonlinear_arith);
        assert(start + stride + (rest.len() - 1) * stride == start + (ws.len() - 1) * stride);
    }
}

/// The chunking of a document covers `[0, text.len())` with no gaps: one
/// chunk equal to the text when it fits in a window, and otherwise windows
/// that each start exactly `overlap` characters before the previous one
/// ends, with the last reaching the end of the text; every position of the
/// text falls inside at least one chunk.
pub proof fn lemma_chunking_covers(text: Seq<char>, max: int, overlap: int)
    requires
        0 <= overlap < max,
    ensures
        ({
            let cs = chunk_spec(text, max, overlap);
            let stride = max - overlap;
            &&& cs.len() >= 1
            &&& (text.len() <= max ==> cs == seq![text])
            &&& (text.len() > max ==> {
                &&& forall|j: int|
                    0 <= j < cs.len() ==> #[trigger] cs[j] == text.subrange(
                        j * stride,
                        vstd::math::min(j * stride + max, text.len() as int),
                    )
                &&& forall|j: int|
                    0 <= j < cs.len() - 1 ==> #[trigger] (j * stride) + max < text.len()
                &&& (cs.len() - 1) * stride + max >= text.len()
                &&& forall|p: int|
                    0 <= p < text.len() ==> #[trigger] covered_by_some(
                        cs.len() as int,
                        stride,
                        max,
                        p,
                    )
            })
        }),
{
    broadcast use vstd::arithmetic::mul::lemma_mul_is_distributive_add;
    broadcast use vstd::arithmetic::mul::lemma_mul_is_commutative;

    let cs = chunk_spec(text, max, overlap);
    let stride = max - overlap;
    if text.len() > max {
        lemma_window_seq_structure(text, max, stride, 0);
        assert forall|p: int| 0 <= p < text.len() implies #[trigger] covered_by_some(
            cs.len() as int,
            stride,
            max,
            p,
        ) by {
            let last = cs.len() - 1;
            let q = p / stride;
            vstd::arithmetic::div_mod::lemma_fundamental_div_mod(p, stride);
            vstd::arithmetic::div_mod::lemma_mod_bound(p, stride);
            if q < last {
                assert(q * stride <= p < q * stride + stride);
                assert(q * stride + stride <= q * stride + max);
                assert(covers(q * stride, q * stride + max, p));
            } else {
                vstd::arithmetic::mul::lemma_mul_inequality(last, q, stride);
                assert(last * stride <= q * stride <= p);
                assert(covers(last * stride, last * stride + max, p));
            }
        }
    }
}

/// `p` lies inside the half-open window `[lo, hi)`.
pub open spec fn covers(lo: int, hi: int, p: int) -> bool {
    lo <= p < hi
}

/// Some of the `n` windows that start at multiples of `stride` and are
/// `max` wide contains position `p`.
pub open spec fn covered_by_some(n: int, stride: int, max: int, p: int) -> bool {
    exists|j: int| 0 <= j < n && #[trigger] covers(j * stride, j * stride + max, p)
}

/// Splits `text` into chunks of at most `max_size` characters, consecutive
/// chunks sharing `overlap` characters, each tagged with `source`.
/// Splitting is by characters, so a multi-byte character is never cut.
pub fn chunk_text(source: &str, text: &str, max_size: usize, overlap: usize) -> (r: Vec<Chunk>)
    requires
        overlap < max_size,
    ensures
        r@.map_values(|c: Chunk| c.text@) == chunk_spec(text@, max_size as int, overlap as int),
        forall|i: int| 0 <= i < r@.len() ==> #[trigger] r@[i].source@ == source@,
{
    let len: usize = text.unicode_len();
    let mut r: Vec<Chunk> = Vec::new();
    if len <= max_size {
        let piece: &str = text.substring_char(0, len);
        r.push(Chunk { source: source.to_owned(), text: piece.to_owned() });
        proof {
            assert(text@.subrange(0, len as int) =~= text@);
            assert(r@.map_values(|c: Chunk| c.text@) =~= seq![text@]);
        }
        return r;
    }
    let stride: usize = max_size - overlap;
    let ghost m: int = max_size as int;
    let ghost s: int = stride as int;
    let mut start: usize = 0;
    loop
        invariant_except_break
            0 <= start < len,
            window_seq(text@, m, s, 0) =~= r@.map_values(|c: Chunk| c.text@) + window_seq(
                text@,
                m,
                s,
                start as int,
            ),
        invariant
            0 < stride == max_size - overlap,
            overlap < max_size < len == text@.len(),
            m == max_size as int,
            s == stride as int,
            forall|i: int| 0 <= i < r@.len() ==> #[trigger] r@[i].source@ == source@,
        ensures
            window_seq(text@, m, s, 0) =~= r@.map_values(|c: Chunk| c.text@),
        decreases len - start,
    {
        let end: usize = if len - start <= max_size {
            len
        } else {
            start + max_size
        };
        let piece: &str = text.substring_char(start, end);
        let ghost prev = r@;
        r.push(Chunk { source: source.to_owned(), text: piece.to_owned() });
        proof {
            assert(r@.map_values(|c: Chunk| c.text@) =~= prev.map_values(|c: Chunk| c.text@)
                + seq![text@.subrange(start as int, end as int)]);
        }
        if end == len {
            proof {
                assert(window_seq(text@, m, s, start as int) == seq![
                    text@.subrange(start as int, end as int),
                ]);
                assert(window_seq(text@, m, s, 0) =~= r@.map_values(|c: Chunk| c.text@));
            }
            break;
        }
        proof {
            assert(window_seq(text@, m, s, start as int) == seq![
                text@.subrange(start as int, end as int),
            ] + window_seq(text@, m, s, start as int + s));
            assert(window_seq(text@, m, s, 0) =~= r@.map_values(|c: Chunk| c.text@) + window_seq(
                text@,
                m,
                s,
                start as int + s,
            ));
        }
        start = start + stride;
    }
    proof {
        assert(r@.map_values(|c: Chunk| c.text@) =~= chunk_spec(
            text@,
            max_size as int,
            overlap as int,
        ));
    }
    r
}

/// The lower-case code point of an ASCII letter; any other character keeps
/// its own code point.
pub open spec fn lower_code(c: char) -> u32 {
    if 'A' as u32 <= c as u32 && c as u32 <= 'Z' as u32 {
        (c as u32 + 32) as u32
    } else {
        c as u32
    }
}

/// `ext` equals `lit` up to ASCII case.
pub open spec fn matches_ext(ext: Seq<char>, lit: Seq<char>) -> bool {
    ext.len() == lit.len() && forall|i: int|
        0 <= i < ext.len() ==> lower_code(ext[i]) == #[trigger] (lit[i] as u32)
}

/// The allow-list of text-like file extensions.
pub open spec fn text_extensions() -> Seq<Seq<char>> {
    seq![
        "rs"@,
        "toml"@,
        "md"@,
        "txt"@,
        "json"@,
        "yaml"@,
        "yml"@,
        "html"@,
        "css"@,
        "js"@,
        "ts"@,
        "py"@,
        "go"@,
        "c"@,
        "cpp"@,
        "h"@,
        "hpp"@,
        "php"@,
        "sh"@,
        "sql"@,
    ]
}

/// The file-name component of a path: everything after the last separator.
pub open spec fn file_name_of(path: Seq<char>) -> Seq<char> {
    match path.index_of_last('/') {
        Some(i) => path.subrange(i + 1, path.len() as int),
        None => path,
    }
}

/// The extension of a file name: the characters after the last dot, when
/// that dot is not the first character of the name.
pub open spec fn extension_of(name: Seq<char>) -> Option<Seq<char>> {
    match name.index_of_last('.') {
        Some(i) => if i > 0 {
            Some(name.subrange(i + 1, name.len() as int))
        } else {
            None
        },
        None => None,
    }
}

/// The path names a text-like document: its extension is on the allow-list,
/// compared without regard to ASCII case.
pub open spec fn is_text_path(path: Seq<char>) -> bool {
    match extension_of(file_name_of(path)) {
        Some(e) => exists|k: int|
            0 <= k < text_extensions().len() && matches_ext(e, #[trigger] text_extensions()[k]),
        None => false,
    }
}

/// The index of the last occurrence of `c` in `s`, scanning from the end.
fn find_last(s: &str, c: char) -> (r: Option<usize>)
    ensures
        match r {
            Some(i) => {
                &&& i < s@.len()
                &&& s@[i as int] == c
                &&& forall|j: int| i < j < s@.len() ==> s@[j] != c
            },
            None => forall|j: int| 0 <= j < s@.len() ==> s@[j] != c,
        },
{
    let len: usize = s.unicode_len();
    let mut i: usize = len;
    while i > 0
        invariant
            i <= len == s@.len(),
            forall|j: int| i <= j < s@.len() ==> s@[j] != c,
        decreases i,
    {
        i = i - 1;
        if s.get_char(i) == c {
            return Some(i);
        }
    }
    None
}

/// `ext` and `lit` are equal up to ASCII case.
fn ext_matches(ext: &str, lit: &str) -> (r: bool)
    ensures
        r == matches_ext(ext@, lit@),
{
    let elen: usize = ext.unicode_len();
    let llen: usize = lit.unicode_len();
    if elen != llen {
        return false;
    }
    let mut i: usize = 0;
    while i < elen
        invariant
            i <= elen == ext@.len() == lit@.len(),
            forall|j: int| 0 <= j < i ==> lower_code(ext@[j]) == #[trigger] (lit@[j] as u32),
        decreases elen - i,
    {
        let a: u32 = ext.get_char(i) as u32;
        let al: u32 = if 'A' as u32 <= a && a <= 'Z' as u32 {
            a + 32
        } else {
            a
        };
        let b: u32 = lit.get_char(i) as u32;
        if al != b {
            return false;
        }
        i = i + 1;
    }
    true
}

/// The path names a text-like document, judged by its file extension
/// against a fixed allow-list, ignoring ASCII case.
pub fn is_text_file(path: &str) -> (r: bool)
    ensures
        r == is_text_path(path@),
{
    let len: usize = path.unicode_len();
    let name_start: usize = match find_last(path, '/') {
        Some(i) => i + 1,
        None => 0,
    };
    proof {
        path@.index_of_last_ensures('/');
        if name_start > 0 {
            assert(path@.contains('/')) by {
                assert(path@[name_start - 1] == '/');
            }
        }
        assert(path@.index_of_last('/') == if name_start > 0 {
            Some(name_start - 1)
        } else {
            None::<int>
        });
        assert(file_name_of(path@) == path@.subrange(name_start as int, len as int));
    }
    let name: &str = path.substring_char(name_start, len);
    let nlen: usize = name.unicode_len();
    match find_last(name, '.') {
        Some(i) => {
            proof {
                name@.index_of_last_ensures('.');
                assert(name@.contains('.')) by {
                    assert(name@[i as int] == '.');
                }
                assert(name@.index_of_last('.') == Some(i as int));
            }
            if i == 0 {
                return false;
            }
            let ext: &str = name.substring_char(i + 1, nlen);
            let found: bool = ext_matches(ext, "rs") || ext_matches(ext, "toml") || ext_matches(
                ext,
                "md",
            ) || ext_matches(ext, "txt") || ext_matches(ext, "json") || ext_matches(ext, "yaml")
                || ext_matches(ext, "yml") || ext_matches(ext, "html") || ext_matches(ext, "css")
                || ext_matches(ext, "js") || ext_matches(ext, "ts") || ext_matches(ext, "py")
                || ext_matches(ext, "go") || ext_matches(ext, "c") || ext_matches(ext, "cpp")
                || ext_matches(ext, "h") || ext_matches(ext, "hpp") || ext_matches(ext, "php")
                || ext_matches(ext, "sh") || ext_matches(ext, "sql");
            proof {
                if found {
                    assert(is_text_path(path@));
                } else {
                    assert forall|k: int|
                        0 <= k < text_extensions().len() implies !matches_ext(
                        ext@,
                        #[trigger] text_extensions()[k],
                    ) by {
                        assert(text_extensions()[0] == "rs"@);
                        assert(text_extensions()[1] == "toml"@);
                        assert(text_extensions()[2] == "md"@);
                        assert(text_extensions()[3] == "txt"@);
                        assert(text_extensions()[4] == "json"@);
                        assert(text_extensions()[5] == "yaml"@);
                        assert(text_extensions()[6] == "yml"@);
                        assert(text_extensions()[7] == "html"@);
                        assert(text_extensions()[8] == "css"@);
                        assert(text_extensions()[9] == "js"@);
                        assert(text_extensions()[10] == "ts"@);
                        assert(text_extensions()[11] == "py"@);
                        assert(text_extensions()[12] == "go"@);
                        assert(text_extensions()[13] == "c"@);
                        assert(text_extensions()[14] == "cpp"@);
                        assert(text_extensions()[15] == "h"@);
                        assert(text_extensions()[16] == "hpp"@);
                        assert(text_extensions()[17] == "php"@);
                        assert(text_extensions()[18] == "sh"@);
                        assert(text_extensions()[19] == "sql"@);
                    }
                }
            }
            found
        },
        None => {
            proof {
                name@.index_of_last_ensures('.');
                assert(name@.index_of_last('.') is None);
            }
            false
        },
    }
}

} // verus!
