//! String interning: one shared canonical handle per distinct text.

use vstd::prelude::*;
use std::rc::Rc;
use crate::table::{Interned, SortedTable, key_of};
use crate::text::chars_of;

verus! {

/// Relies on `Rc::clone`: a new handle on the same allocation, so equal to it.
#[verifier::external_body]
pub(crate) fn share(h: &Interned) -> (r: Interned)
    ensures
        r == *h,
{
    Rc::clone(h)
}

/// The set of canonical strings seen so far.
pub struct StringIntern {
    pub set: SortedTable<()>,
}

impl StringIntern {
    pub open spec fn wf(&self) -> bool {
        &&& self.set.wf()
        &&& forall|i: int| 0 <= i < self.set.keys.len() ==> (#[trigger] self.set.keys@[i]).len() == 1
    }

    /// Whether `t` has been interned.
    pub open spec fn holds(&self, t: Seq<char>) -> bool {
        self.set.has(seq![t])
    }

    pub fn new() -> (r: StringIntern)
        ensures
            r.wf(),
            forall|t: Seq<char>| !r.holds(t),
    {
        StringIntern { set: SortedTable::new() }
    }

    /// Interns `s`: a handle on the canonical copy of its text. A text seen
    /// before comes back as the handle kept for it, and nothing is stored.
    pub fn add(&mut self, s: String) -> (r: Interned)
        requires
            old(self).wf(),
        ensures
            final(self).wf(),
            r@ == s@,
            forall|t: Seq<char>| #[trigger] final(self).holds(t) == (old(self).holds(t) || t == s@),
            old(self).holds(s@) ==> *final(self) == *old(self),
    {
        self.add_chars(chars_of(s.as_str()))
    }

    /// `add` on a text given as its characters.
    pub fn add_chars(&mut self, s: Vec<char>) -> (r: Interned)
        requires
            old(self).wf(),
        ensures
            final(self).wf(),
            r@ == s@,
            forall|t: Seq<char>| #[trigger] final(self).holds(t) == (old(self).holds(t) || t == s@),
            old(self).holds(s@) ==> *final(self) == *old(self),
    {
        let h: Interned = Rc::new(s);
        let key: Vec<Interned> = vec![h];
        let ghost k = key_of(key@);
        assert(k =~= seq![s@]);
        match self.set.find(&key) {
            Ok(i) => {
                let r = share(&self.set.keys[i][0]);
                proof {
                    assert(self.set.kv()[i as int] == k);
                    assert(self.set.keys@[i as int].len() == 1);
                    assert(key_of(self.set.keys@[i as int]@)[0] == self.set.keys@[i as int]@[0]@);
                }
                r
            },
            Err(i) => {
                let r = share(&key[0]);
                self.set.insert_at(i, key, ());
                proof {
                    assert forall|t: Seq<char>| #[trigger] self.holds(t) == (old(self).holds(t) || t == s@) by {
                        if self.holds(t) {
                            let j = choose|j: int| 0 <= j < self.set.keys.len() && #[trigger] self.set.kv()[j] == seq![t];
                            if j != i {
                                let j2 = if j < i { j } else { j - 1 };
                                assert(old(self).set.kv()[j2] == seq![t]);
                            } else {
                                assert(seq![t][0] == k[0]);
                            }
                        }
                        if old(self).holds(t) {
                            let j = choose|j: int| 0 <= j < old(self).set.keys.len() && #[trigger] old(self).set.kv()[j] == seq![t];
                            let j2 = if j < i { j } else { j + 1 };
                            assert(self.set.kv()[j2] == seq![t]);
                        }
                        if t == s@ {
                            assert(self.set.kv()[i as int] == seq![t]);
                        }
                    }
                }
                r
            },
        }
    }
}

} // verus!
