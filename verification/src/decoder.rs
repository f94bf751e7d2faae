//! Incremental extraction of text deltas from a loosely framed stream of
//! response objects.
//!
//! The stream carries a sequence of complete JSON-like objects with no
//! delimiter and no alignment to fragment boundaries. The decoder keeps one
//! text buffer, finds the first opening brace, and counts brace depth until
//! it returns to zero; the balanced slice is handed to the envelope parser
//! and everything up to and including it is consumed. Known limitation,
//! kept deliberately: depth counting does not distinguish braces inside
//! quoted string values from structural braces, so a literal brace inside a
//! string corrupts depth tracking for that object.

use vstd::prelude::*;
use vstd::string::*;

verus! {

/// What the envelope parser yields for one balanced object: the text of
/// the first candidate's first content part, if the object parses as the
/// expected response envelope and that part is present.
pub uninterp spec fn delta_of(s: Seq<char>) -> Option<Seq<char>>;

/// Relies on serde_json::from_str::<serde_json::Value> and on Value's
/// get/as_str accessors: parses one object and picks out the text at
/// candidates[0].content.parts[0].text. The result depends on the input
/// text alone.
#[verifier::external_body]
fn parse_delta(s: &str) -> (r: Option<String>)
    ensures
        match (r, delta_of(s@)) {
            (Some(t), Some(d)) => t@ == d,
            (None, None) => true,
            _ => false,
        },
{
    let v: serde_json::Value = match serde_json::from_str(s) {
        Ok(v) => v,
        Err(_) => return None,
    };
    let part = v.get("candidates")?.get(0)?.get("content")?.get("parts")?.get(0)?;
    Some(part.get("text")?.as_str()?.to_string())
}

/// The index of the first opening brace at or after `from`.
pub open spec fn first_open_from(s: Seq<char>, from: int) -> Option<int>
    decreases s.len() - from
        when 0 <= from <= s.len()
{
    if from >= s.len() {
        None
    } else if s[from] == '{' {
        Some(from)
    } else {
        first_open_from(s, from + 1)
    }
}

/// One past the position where brace depth returns to zero, scanning from
/// `from` with `depth` braces already open; `None` when the buffer ends
/// before the depth balances.
pub open spec fn balance_from(s: Seq<char>, from: int, depth: int) -> Option<int>
    decreases s.len() - from
        when 0 <= from <= s.len()
{
    if from >= s.len() {
        None
    } else {
        let d = if s[from] == '{' {
            depth + 1
        } else if s[from] == '}' {
            depth - 1
        } else {
            depth
        };
        if d == 0 {
            Some(from + 1)
        } else {
            balance_from(s, from + 1, d)
        }
    }
}

/// The deltas emitted for one balanced object: its parsed text when the
/// envelope parses and the text is non-empty, and nothing otherwise.
pub open spec fn emit_of(obj: Seq<char>) -> Seq<Seq<char>> {
    match delta_of(obj) {
        Some(t) => if t.len() > 0 {
            seq![t]
        } else {
            seq![]
        },
        None => seq![],
    }
}

/// Bounds of a found opening brace.
proof fn lemma_first_open_bounds(s: Seq<char>, from: int)
    requires
        0 <= from <= s.len(),
    ensures
        match first_open_from(s, from) {
            Some(at) => from <= at < s.len() && s[at] == '{',
            None => true,
        },
    decreases s.len() - from,
{
    if from < s.len() && s[from] != '{' {
        lemma_first_open_bounds(s, from + 1);
    }
}

/// Bounds of a found balance point.
proof fn lemma_balance_bounds(s: Seq<char>, from: int, depth: int)
    requires
        0 <= from <= s.len(),
    ensures
        match balance_from(s, from, depth) {
            Some(end) => from < end <= s.len(),
            None => true,
        },
    decreases s.len() - from,
{
    if from < s.len() {
        let d = if s[from] == '{' {
            depth + 1
        } else if s[from] == '}' {
            depth - 1
        } else {
            depth
        };
        if d != 0 {
            lemma_balance_bounds(s, from + 1, d);
        }
    }
}

/// What one draining pass over the buffer produces: the deltas of every
/// complete balanced object found, in order, and the bytes left waiting;
/// a buffer with no opening brace is cleared.
pub open spec fn drain_spec(s: Seq<char>) -> (Seq<Seq<char>>, Seq<char>)
    decreases s.len()
        via drain_spec_decreases
{
    match first_open_from(s, 0) {
        None => (seq![], seq![]),
        Some(at) => match balance_from(s, at, 0) {
            None => (seq![], s),
            Some(end) => {
                let obj = s.subrange(at, end);
                let rest = drain_spec(s.subrange(end, s.len() as int));
                (emit_of(obj) + rest.0, rest.1)
            },
        },
    }
}

#[via_fn]
proof fn drain_spec_decreases(s: Seq<char>) {
    lemma_first_open_bounds(s, 0);
    match first_open_from(s, 0) {
        None => {},
        Some(at) => {
            lemma_balance_bounds(s, at, 0);
        },
    }
}

/// Skipping characters that are not opening braces does not change the
/// first opening brace.
proof fn lemma_first_open_skip(s: Seq<char>, j: int)
    requires
        0 <= j <= s.len(),
        forall|k: int| 0 <= k < j ==> s[k] != '{',
    ensures
        first_open_from(s, 0) == first_open_from(s, j),
    decreases j,
{
    if j > 0 {
        lemma_first_open_skip(s, j - 1);
        assert(first_open_from(s, j - 1) == first_open_from(s, j));
    }
}

/// A single complete object: it opens with a brace and its depth first
/// returns to zero exactly at its end.
pub open spec fn well_formed_object(s: Seq<char>) -> bool {
    &&& s.len() >= 1
    &&& s[0] == '{'
    &&& balance_from(s, 0, 0) == Some(s.len() as int)
}

/// What draining yields when the buffer arrives one character at a time:
/// every character is fed on its own and the emitted deltas accumulate.
pub open spec fn feed_all(b: Seq<char>, s: Seq<char>) -> (Seq<Seq<char>>, Seq<char>)
    decreases s.len(),
{
    if s.len() == 0 {
        (seq![], b)
    } else {
        let step = drain_spec(b + seq![s[0]]);
        let rest = feed_all(step.1, s.subrange(1, s.len() as int));
        (step.0 + rest.0, rest.1)
    }
}

/// Truncating the buffer before the balance point hides it: the truncated
/// scan finds the same early balance point, and none if the point lies
/// beyond the truncation.
proof fn lemma_balance_take(s: Seq<char>, from: int, depth: int, m: int)
    requires
        0 <= from <= m <= s.len(),
    ensures
        match balance_from(s, from, depth) {
            Some(end) => if end <= m {
                balance_from(s.take(m), from, depth) == Some(end)
            } else {
                balance_from(s.take(m), from, depth) is None
            },
            None => balance_from(s.take(m), from, depth) is None,
        },
    decreases s.len() - from,
{
    if from == m {
        lemma_balance_bounds(s, from, depth);
    } else {
        assert(s.take(m)[from] == s[from]);
        let d = if s[from] == '{' {
            depth + 1
        } else if s[from] == '}' {
            depth - 1
        } else {
            depth
        };
        if d != 0 {
            lemma_balance_take(s, from + 1, d, m);
        }
    }
}

/// A proper prefix of a well-formed object holds no complete object:
/// draining it emits nothing and leaves it untouched.
proof fn lemma_prefix_no_object(s: Seq<char>, m: int)
    requires
        well_formed_object(s),
        1 <= m < s.len(),
    ensures
        drain_spec(s.take(m)).0 =~= Seq::<Seq<char>>::empty(),
        drain_spec(s.take(m)).1 =~= s.take(m),
{
    let p = s.take(m);
    assert(p[0] == '{');
    assert(first_open_from(p, 0) == Some(0int));
    lemma_balance_take(s, 0, 0, m);
    assert(balance_from(p, 0, 0) is None);
}

/// Draining a buffer that is exactly one well-formed object emits its
/// delta and leaves the buffer empty.
proof fn lemma_whole_object(s: Seq<char>)
    requires
        well_formed_object(s),
    ensures
        drain_spec(s).0 =~= emit_of(s),
        drain_spec(s).1 =~= Seq::<char>::empty(),
{
    assert(first_open_from(s, 0) == Some(0int));
    assert(s.subrange(0, s.len() as int) =~= s);
    let rest = s.subrange(s.len() as int, s.len() as int);
    assert(rest =~= Seq::<char>::empty());
    assert(first_open_from(rest, 0) is None);
    assert(drain_spec(rest).0 =~= Seq::<Seq<char>>::empty());
    assert(drain_spec(s).0 =~= emit_of(s) + drain_spec(rest).0);
    assert(emit_of(s) + Seq::<Seq<char>>::empty() =~= emit_of(s));
}

/// After a proper prefix of the object has been fed and buffered, feeding
/// the remaining characters one by one emits exactly the object's delta.
proof fn lemma_feed_tail(s: Seq<char>, k: int)
    requires
        well_formed_object(s),
        1 <= k < s.len(),
    ensures
        feed_all(s.take(k), s.subrange(k, s.len() as int)).0 =~= drain_spec(s).0,
        feed_all(s.take(k), s.subrange(k, s.len() as int)).1 =~= drain_spec(s).1,
    decreases s.len() - k,
{
    let tail = s.subrange(k, s.len() as int);
    assert(tail.len() >= 1);
    assert(tail[0] == s[k]);
    assert(s.take(k) + seq![s[k]] =~= s.take(k + 1));
    let step = drain_spec(s.take(k + 1));
    if k + 1 < s.len() {
        lemma_prefix_no_object(s, k + 1);
        assert(step.0 =~= Seq::<Seq<char>>::empty());
        assert(step.1 =~= s.take(k + 1));
        assert(tail.subrange(1, tail.len() as int) =~= s.subrange(k + 1, s.len() as int));
        lemma_feed_tail(s, k + 1);
        assert(feed_all(s.take(k), tail).0 =~= step.0 + feed_all(
            s.take(k + 1),
            s.subrange(k + 1, s.len() as int),
        ).0);
        assert(Seq::<Seq<char>>::empty() + drain_spec(s).0 =~= drain_spec(s).0);
    } else {
        assert(k + 1 == s.len());
        assert(s.take(k + 1) =~= s);
        lemma_whole_object(s);
        assert(tail.subrange(1, tail.len() as int) =~= Seq::<char>::empty());
        let rest = feed_all(step.1, Seq::<char>::empty());
        assert(rest.0 =~= Seq::<Seq<char>>::empty());
        assert(rest.1 =~= step.1);
        assert(feed_all(s.take(k), tail).0 =~= step.0 + rest.0);
        assert(step.0 + Seq::<Seq<char>>::empty() =~= step.0);
    }
}

/// Feeding one well-formed object character by character, starting from an
/// empty buffer, emits exactly the deltas of feeding it as one fragment,
/// and leaves the buffer empty either way.
pub proof fn lemma_byte_by_byte(s: Seq<char>)
    requires
        well_formed_object(s),
    ensures
        feed_all(Seq::<char>::empty(), s).0 =~= drain_spec(s).0,
        feed_all(Seq::<char>::empty(), s).1 =~= drain_spec(s).1,
{
    if s.len() == 1 {
        assert(balance_from(s, 0, 0) == balance_from(s, 1, 1));
        assert(balance_from(s, 1, 1) is None);
        assert(false);
    }
    assert(Seq::<char>::empty() + seq![s[0]] =~= s.take(1));
    let step = drain_spec(s.take(1));
    lemma_prefix_no_object(s, 1);
    assert(step.0 =~= Seq::<Seq<char>>::empty());
    assert(step.1 =~= s.take(1));
    lemma_feed_tail(s, 1);
    assert(s.subrange(1, s.len() as int) == s.subrange(1, s.len() as int));
    assert(feed_all(Seq::<char>::empty(), s).0 =~= step.0 + feed_all(
        s.take(1),
        s.subrange(1, s.len() as int),
    ).0);
    assert(Seq::<Seq<char>>::empty() + drain_spec(s).0 =~= drain_spec(s).0);
}

/// The incremental decoder: one accumulating buffer of text not yet fully
/// consumed, drained of complete balanced objects on every arriving
/// fragment.
pub struct StreamDecoder {
    pub buffer: String,
}

impl StreamDecoder {
    /// A fresh decoder with an empty buffer.
    pub fn new() -> (r: StreamDecoder)
        ensures
            r.buffer@ == Seq::<char>::empty(),
    {
        StreamDecoder { buffer: String::new() }
    }

    /// Appends one arriving fragment to the buffer, then drains every
    /// complete balanced object from it, emitting their parsed texts in
    /// order; a partial trailing object stays buffered, and a buffer with
    /// no object fragment at all is cleared.
    pub fn feed(&mut self, fragment: &str) -> (deltas: Vec<String>)
        ensures
            crate::string_views(deltas@) == drain_spec(old(self).buffer@ + fragment@).0,
            final(self).buffer@ == drain_spec(old(self).buffer@ + fragment@).1,
    {
        let ghost orig: Seq<char> = old(self).buffer@ + fragment@;
        self.buffer.append(fragment);
        let mut deltas: Vec<String> = Vec::new();
        proof {
            assert(crate::string_views(deltas@) =~= Seq::<Seq<char>>::empty());
        }
        loop
            invariant_except_break
                drain_spec(orig).0 =~= crate::string_views(deltas@) + drain_spec(self.buffer@).0,
                drain_spec(orig).1 =~= drain_spec(self.buffer@).1,
            ensures
                crate::string_views(deltas@) =~= drain_spec(orig).0,
                self.buffer@ =~= drain_spec(orig).1,
            decreases self.buffer@.len(),
        {
            let blen: usize = self.buffer.as_str().unicode_len();
            // find the first opening brace
            let mut at: usize = 0;
            while at < blen && self.buffer.as_str().get_char(at) != '{'
                invariant
                    blen == self.buffer@.len(),
                    at <= blen,
                    forall|k: int| 0 <= k < at ==> self.buffer@[k] != '{',
                decreases blen - at,
            {
                at = at + 1;
            }
            proof {
                lemma_first_open_skip(self.buffer@, at as int);
            }
            if at == blen {
                // no object fragment at all: clear the buffer
                proof {
                    assert(first_open_from(self.buffer@, 0) is None);
                    assert(drain_spec(self.buffer@).0 =~= Seq::<Seq<char>>::empty());
                    assert(crate::string_views(deltas@) + drain_spec(self.buffer@).0 =~= crate::string_views(
                        deltas@,
                    ));
                }
                self.buffer = String::new();
                break;
            }
            proof {
                assert(first_open_from(self.buffer@, 0) == Some(at as int));
            }
            // scan forward counting brace depth
            let mut cur: usize = at;
            let mut depth: i128 = 0;
            let mut end: usize = 0;
            let mut found: bool = false;
            while cur < blen && !found
                invariant
                    blen == self.buffer@.len(),
                    at <= cur <= blen,
                    -(cur as int) <= depth <= cur as int,
                    !found ==> balance_from(self.buffer@, at as int, 0) == balance_from(
                        self.buffer@,
                        cur as int,
                        depth as int,
                    ),
                    found ==> balance_from(self.buffer@, at as int, 0) == Some(end as int),
                    found ==> at < end <= blen,
                decreases blen - cur,
            {
                let c: char = self.buffer.as_str().get_char(cur);
                let d: i128 = if c == '{' {
                    depth + 1
                } else if c == '}' {
                    depth - 1
                } else {
                    depth
                };
                if d == 0 {
                    end = cur + 1;
                    found = true;
                } else {
                    depth = d;
                }
                cur = cur + 1;
            }
            if !found {
                // the object is still incomplete: wait for more input
                proof {
                    assert(balance_from(self.buffer@, at as int, 0) is None);
                    assert(drain_spec(self.buffer@).1 =~= self.buffer@);
                    assert(drain_spec(self.buffer@).0 =~= Seq::<Seq<char>>::empty());
                    assert(crate::string_views(deltas@) + drain_spec(self.buffer@).0 =~= crate::string_views(
                        deltas@,
                    ));
                }
                break;
            }
            let ghost before: Seq<char> = self.buffer@;
            let obj: &str = self.buffer.as_str().substring_char(at, end);
            let parsed: Option<String> = parse_delta(obj);
            let ghost emitted_prev = deltas@;
            match parsed {
                Some(t) => {
                    if t.as_str().unicode_len() > 0 {
                        deltas.push(t);
                    }
                },
                None => {},
            }
            proof {
                assert(crate::string_views(deltas@) =~= crate::string_views(emitted_prev) + emit_of(
                    before.subrange(at as int, end as int),
                ));
            }
            let rest: String = self.buffer.as_str().substring_char(end, blen).to_owned();
            self.buffer = rest;
            proof {
                assert(self.buffer@ =~= before.subrange(end as int, before.len() as int));
                assert(drain_spec(before).0 =~= emit_of(before.subrange(at as int, end as int))
                    + drain_spec(self.buffer@).0);
                assert(drain_spec(before).1 =~= drain_spec(self.buffer@).1);
                assert(crate::string_views(deltas@) + drain_spec(self.buffer@).0 =~= crate::string_views(
                    emitted_prev,
                ) + drain_spec(before).0);
            }
        }
        deltas
    }
}

} // verus!
