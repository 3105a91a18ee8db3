//! The per-file line cache: each source line trimmed of ASCII whitespace,
//! cut to its first hundred characters, with the width of its indentation;
//! and the extraction of left-aligned "peek" blocks.

use vstd::prelude::*;
use crate::intern::StringIntern;
use crate::table::Interned;
use crate::text::{chars_of, slice_chars, push_all};

verus! {

/// The longest stored line, in characters.
pub const MAX_LINE_CHARS: usize = 100;

pub open spec fn is_ascii_ws(c: char) -> bool {
    c == ' ' || c == '\t' || c == '\n' || c == '\x0c' || c == '\r'
}

/// `s` without its trailing ASCII whitespace.
pub open spec fn trim_end(s: Seq<char>) -> Seq<char>
    decreases s.len(),
{
    if s.len() > 0 && is_ascii_ws(s.last()) {
        trim_end(s.drop_last())
    } else {
        s
    }
}

/// The number of ASCII whitespace characters that `s` begins with.
pub open spec fn lead_ws(s: Seq<char>) -> nat
    decreases s.len(),
{
    if s.len() > 0 && is_ascii_ws(s[0]) {
        1 + lead_ws(s.drop_first())
    } else {
        0
    }
}

/// The text kept for a raw line: trimmed at both ends, at most a hundred
/// characters.
pub open spec fn line_text(raw: Seq<char>) -> Seq<char> {
    let t = trim_end(raw);
    let rest = t.skip(lead_ws(t) as int);
    if rest.len() <= MAX_LINE_CHARS {
        rest
    } else {
        rest.take(MAX_LINE_CHARS as int)
    }
}

/// The indentation of a raw line: how many characters trimming the start removed.
pub open spec fn line_offset(raw: Seq<char>) -> nat {
    lead_ws(trim_end(raw))
}

proof fn lemma_trim_end_prefix(s: Seq<char>, n: int)
    requires
        0 <= n <= s.len(),
        forall|j: int| n <= j < s.len() ==> is_ascii_ws(#[trigger] s[j]),
        n == 0 || !is_ascii_ws(s[n - 1]),
    ensures
        trim_end(s) == s.take(n),
    decreases s.len(),
{
    if s.len() > n {
        assert(s.drop_last().take(n) =~= s.take(n));
        lemma_trim_end_prefix(s.drop_last(), n);
    } else {
        assert(s.take(n) =~= s);
    }
}

proof fn lemma_lead_ws(s: Seq<char>, n: int)
    requires
        0 <= n <= s.len(),
        forall|j: int| 0 <= j < n ==> is_ascii_ws(#[trigger] s[j]),
        n == s.len() || !is_ascii_ws(s[n]),
    ensures
        lead_ws(s) == n,
    decreases n,
{
    if n > 0 {
        assert forall|j: int| 0 <= j < n - 1 implies is_ascii_ws(#[trigger] s.drop_first()[j]) by {
            assert(s.drop_first()[j] == s[j + 1]);
        }
        lemma_lead_ws(s.drop_first(), n - 1);
    }
}

fn ascii_ws(c: char) -> (r: bool)
    ensures
        r == is_ascii_ws(c),
{
    c == ' ' || c == '\t' || c == '\n' || c == '\x0c' || c == '\r'
}

/// The stored form of one raw source line: its `line_text` and `line_offset`.
pub fn trim_line(raw: &[char]) -> (r: (Vec<char>, usize))
    ensures
        r.0@ == line_text(raw@),
        r.1 == line_offset(raw@),
{
    let mut end: usize = raw.len();
    while end > 0 && ascii_ws(raw[end - 1])
        invariant
            end <= raw@.len(),
            forall|j: int| end <= j < raw@.len() ==> is_ascii_ws(#[trigger] raw@[j]),
        decreases end,
    {
        end = end - 1;
    }
    proof {
        lemma_trim_end_prefix(raw@, end as int);
    }
    let ghost t = raw@.take(end as int);
    let mut start: usize = 0;
    while start < end && ascii_ws(raw[start])
        invariant
            start <= end <= raw@.len(),
            t == raw@.take(end as int),
            forall|j: int| 0 <= j < start ==> is_ascii_ws(#[trigger] t[j]),
        decreases end - start,
    {
        start = start + 1;
    }
    proof {
        lemma_lead_ws(t, start as int);
    }
    let stop = if end - start <= MAX_LINE_CHARS { end } else { start + MAX_LINE_CHARS };
    let text = slice_chars(raw, start, stop);
    assert(text@ =~= line_text(raw@));
    (text, start)
}

/// The lines of one source file, in order, as interned texts with their
/// indentation.
pub struct SourceLines {
    pub lines: Vec<(Interned, usize)>,
}

/// The stored form of a file's lines; a line that could not be decoded
/// (`None`) stands as an empty line with no indentation.
pub open spec fn line_entry(raw: Option<Seq<char>>) -> (Seq<char>, nat) {
    match raw {
        Some(r) => (line_text(r), line_offset(r)),
        None => (Seq::empty(), 0),
    }
}

pub open spec fn raw_view(raw: Option<String>) -> Option<Seq<char>> {
    match raw {
        Some(s) => Some(s@),
        None => None,
    }
}

impl SourceLines {
    /// The text and indentation of each line, in order.
    pub open spec fn entries(&self) -> Seq<(Seq<char>, nat)> {
        self.lines@.map_values(|e: (Interned, usize)| (e.0@, e.1 as nat))
    }

    /// Trims and interns every line of a file.
    pub fn build(strings: &mut StringIntern, raw: &Vec<Option<String>>) -> (r: SourceLines)
        requires
            old(strings).wf(),
        ensures
            final(strings).wf(),
            forall|t: Seq<char>| #[trigger] old(strings).holds(t) ==> final(strings).holds(t),
            r.entries().len() == raw@.len(),
            forall|i: int| 0 <= i < raw@.len() ==> #[trigger] r.entries()[i] == line_entry(raw_view(raw@[i])),
    {
        let mut lines: Vec<(Interned, usize)> = Vec::new();
        let mut i: usize = 0;
        while i < raw.len()
            invariant
                i <= raw@.len(),
                strings.wf(),
                forall|t: Seq<char>| #[trigger] old(strings).holds(t) ==> strings.holds(t),
                lines@.len() == i,
                forall|j: int| 0 <= j < i ==> (#[trigger] lines@[j]).0@ == line_entry(raw_view(raw@[j])).0
                    && lines@[j].1 as nat == line_entry(raw_view(raw@[j])).1,
            decreases raw@.len() - i,
        {
            let entry = match &raw[i] {
                Some(s) => {
                    let (text, offset) = trim_line(chars_of(s.as_str()).as_slice());
                    (strings.add_chars(text), offset)
                },
                None => (strings.add_chars(Vec::new()), 0),
            };
            lines.push(entry);
            i = i + 1;
        }
        let r = SourceLines { lines };
        assert forall|j: int| 0 <= j < raw@.len() implies #[trigger] r.entries()[j] == line_entry(raw_view(raw@[j])) by {
            assert(r.entries()[j] == (lines@[j].0@, lines@[j].1 as nat));
        }
        r
    }
}

/// `n` spaces.
pub open spec fn spaces(n: int) -> Seq<char> {
    Seq::new(if n > 0 { n as nat } else { 0 }, |i: int| ' ')
}

/// The peek block of the lines with 0-based indices `a` up to, not including,
/// `b`: each line indented by how far its indentation exceeds `left0` (never
/// less than zero), followed by a newline.
pub open spec fn peek_from(e: Seq<(Seq<char>, nat)>, left0: nat, a: int, b: int) -> Seq<char>
    decreases b - a,
{
    if b <= a || b > e.len() || a < 0 {
        Seq::empty()
    } else {
        peek_from(e, left0, a, b - 1) + spaces(e[b - 1].1 - left0) + e[b - 1].0 + seq!['\n']
    }
}

/// The peek block for the 1-based inclusive line range `[start, end]`, aligned
/// to the indentation of line `start`. A start of 0 means no peek; a range that
/// is empty or reaches past the last line gives no block.
pub open spec fn peek_of(e: Seq<(Seq<char>, nat)>, start: nat, end: nat) -> Seq<char> {
    if start == 0 || end < start || end > e.len() {
        Seq::empty()
    } else {
        peek_from(e, e[start - 1].1, start - 1, end as int)
    }
}

impl SourceLines {
    /// The peek block for lines `start` to `end` of this file.
    pub fn peek_lines(&self, start: u32, end: u32) -> (r: Vec<char>)
        ensures
            r@ == peek_of(self.entries(), start as nat, end as nat),
    {
        let mut out: Vec<char> = Vec::new();
        if start == 0 || end < start || end as usize > self.lines.len() {
            return out;
        }
        let left0 = self.lines[(start - 1) as usize].1;
        let ghost e = self.entries();
        let mut k: usize = (start - 1) as usize;
        while k < end as usize
            invariant
                e == self.entries(),
                e.len() == self.lines@.len(),
                1 <= start <= end <= e.len(),
                start - 1 <= k <= end,
                left0 == e[start - 1].1,
                out@ == peek_from(e, left0 as nat, start - 1, k as int),
            decreases end - k,
        {
            let (ref text, indent) = self.lines[k];
            let mut n: usize = 0;
            let pad: usize = if indent > left0 { indent - left0 } else { 0 };
            let ghost before = out@;
            while n < pad
                invariant
                    n <= pad,
                    out@ == before + spaces(n as int),
                decreases pad - n,
            {
                out.push(' ');
                n = n + 1;
                assert(out@ =~= before + spaces(n as int));
            }
            push_all(&mut out, text.as_slice());
            out.push('\n');
            assert(e[k as int] == (text@, indent as nat));
            assert(spaces(pad as int) =~= spaces(e[k as int].1 - left0));
            k = k + 1;
            assert(out@ =~= peek_from(e, left0 as nat, start - 1, k as int));
        }
        out
    }
}

} // verus!
