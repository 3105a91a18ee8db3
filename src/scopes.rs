//! Splitting a qualified identifier into its scopes, where a `:` inside
//! angle-bracketed arguments does not split.

use vstd::prelude::*;
use crate::text::{chars_of, slice_chars, string_of};

verus! {

/// The state after scanning the first `n` characters of `s`: the components
/// emitted so far, where the current component starts, and the bracket depth.
pub open spec fn scan(s: Seq<char>, n: nat) -> (Seq<Seq<char>>, int, int)
    decreases n,
{
    if n == 0 || n > s.len() {
        (Seq::empty(), 0, 0)
    } else {
        let (parts, start, depth) = scan(s, (n - 1) as nat);
        let i = n - 1;
        let c = s[i];
        if c == ':' && depth == 0 {
            if start != i {
                (parts.push(s.subrange(start, i)), i + 1, depth)
            } else {
                (parts, i + 1, depth)
            }
        } else if c == '<' {
            (parts, start, depth + 1)
        } else if c == '>' {
            (parts, start, depth - 1)
        } else {
            (parts, start, depth)
        }
    }
}

/// The scope components of `s`: the non-empty pieces between top-level `:`
/// characters, then the tail after the last one (kept even when empty).
pub open spec fn scopes_of(s: Seq<char>) -> Seq<Seq<char>> {
    let (parts, start, _) = scan(s, s.len());
    parts.push(s.subrange(start, s.len() as int))
}

proof fn lemma_scan_bounds(s: Seq<char>, n: nat)
    requires
        n <= s.len(),
    ensures
        0 <= scan(s, n).1 <= n,
        -(n as int) <= scan(s, n).2 <= n,
    decreases n,
{
    if n > 0 {
        lemma_scan_bounds(s, (n - 1) as nat);
    }
}

/// `scopes_of` on a sequence of characters.
pub fn split_scope_chars(id: &[char]) -> (r: Vec<Vec<char>>)
    ensures
        r@.len() == scopes_of(id@).len(),
        forall|i: int| 0 <= i < r@.len() ==> (#[trigger] r@[i])@ == scopes_of(id@)[i],
{
    let mut result: Vec<Vec<char>> = Vec::new();
    let mut start: usize = 0;
    let mut opened: usize = 0;
    let mut closed: usize = 0;
    let mut index: usize = 0;
    while index < id.len()
        invariant
            index <= id@.len(),
            start <= index,
            opened <= index,
            closed <= index,
            scan(id@, index as nat).0.len() == result@.len(),
            forall|i: int| 0 <= i < result@.len() ==> (#[trigger] result@[i])@ == scan(id@, index as nat).0[i],
            scan(id@, index as nat).1 == start,
            scan(id@, index as nat).2 == opened - closed,
        decreases id@.len() - index,
    {
        proof {
            lemma_scan_bounds(id@, index as nat);
        }
        let c = id[index];
        if c == ':' && opened == closed {
            if start != index {
                let piece = slice_chars(id, start, index);
                result.push(piece);
            }
            start = index + 1;
        } else if c == '<' {
            opened = opened + 1;
        } else if c == '>' {
            closed = closed + 1;
        }
        index = index + 1;
    }
    let tail = slice_chars(id, start, id.len());
    result.push(tail);
    assert(id@.len() == index);
    result
}

/// Splits a qualified identifier such as `ns::Outer<A, B<C>>::method` into its
/// scope components (`ns`, `Outer<A, B<C>>`, `method`).
pub fn split_scopes(id: &str) -> (r: Vec<String>)
    ensures
        r@.len() == scopes_of(id@).len(),
        forall|i: int| 0 <= i < r@.len() ==> (#[trigger] r@[i])@ == scopes_of(id@)[i],
{
    let chars = chars_of(id);
    let parts = split_scope_chars(chars.as_slice());
    let mut r: Vec<String> = Vec::new();
    let mut i: usize = 0;
    while i < parts.len()
        invariant
            i <= parts@.len(),
            chars@ == id@,
            parts@.len() == scopes_of(id@).len(),
            forall|j: int| 0 <= j < parts@.len() ==> (#[trigger] parts@[j])@ == scopes_of(id@)[j],
            r@.len() == i,
            forall|j: int| 0 <= j < i ==> (#[trigger] r@[j])@ == scopes_of(id@)[j],
        decreases parts@.len() - i,
    {
        r.push(string_of(parts[i].as_slice()));
        i = i + 1;
    }
    r
}

} // verus!
