//! String interner: names are handed out dense ids in order of first use.

use vstd::prelude::*;

verus! {

/// Id of an interned string (its position in the interner).
#[derive(Clone, Copy, Debug, PartialEq, Eq, Structural, Hash, PartialOrd, Ord)]
pub struct InternedStr(pub u32);

/// Compares two string slices for equality.
///
/// Calls `<str as PartialEq>::eq`; the contract claims the result is the
/// equality of the two character sequences.
#[verifier::external_body]
pub(crate) fn str_eq(a: &str, b: &str) -> (r: bool)
    ensures
        r == (a@ == b@),
{
    a == b
}

/// Interns strings: the first `intern` of a name gives it the next id,
/// later ones give the same id back.
#[derive(Clone)]
pub struct StringInterner {
    strings: Vec<String>,
}

/// Whether no string occurs twice in `s`.
pub open spec fn distinct_strings(s: Seq<Seq<char>>) -> bool {
    forall|i: int, j: int| 0 <= i < s.len() && 0 <= j < s.len() && i != j ==> s[i] != s[j]
}

impl StringInterner {
    /// The interned strings, the string with id `i` at position `i`.
    pub closed spec fn names(&self) -> Seq<Seq<char>> {
        self.strings@.map_values(|s: String| s@)
    }

    pub closed spec fn wf(&self) -> bool {
        &&& distinct_strings(self.names())
        &&& self.strings@.len() <= u32::MAX
    }

    /// The id of `s`, if it was interned.
    pub open spec fn find_spec(&self, s: Seq<char>) -> Option<InternedStr> {
        if exists|i: int| 0 <= i < self.names().len() && self.names()[i] == s {
            let i = choose|i: int| 0 <= i < self.names().len() && self.names()[i] == s;
            Some(InternedStr(i as u32))
        } else {
            None
        }
    }

    /// A name found in an interner keeps its id in any interner that
    /// extends it.
    pub proof fn lemma_find_prefix(&self, other: &Self, s: Seq<char>)
        requires
            self.wf(),
            other.wf(),
            self.names().len() <= other.names().len(),
            other.names().subrange(0, self.names().len() as int) == self.names(),
            self.find_spec(s) is Some,
        ensures
            other.find_spec(s) == self.find_spec(s),
    {
        let i = choose|i: int| 0 <= i < self.names().len() && self.names()[i] == s;
        assert(other.names().subrange(0, self.names().len() as int)[i] == other.names()[i]);
        assert(other.names()[i] == s);
        let k = choose|k: int| 0 <= k < other.names().len() && other.names()[k] == s;
        assert(k == i);
    }

    /// Different strings found in the table have different ids.
    pub proof fn lemma_find_distinct(&self, s: Seq<char>, t: Seq<char>)
        requires
            self.wf(),
            self.find_spec(s) is Some,
            self.find_spec(t) is Some,
            s != t,
        ensures
            self.find_spec(s) != self.find_spec(t),
    {
        let i = choose|i: int| 0 <= i < self.names().len() && self.names()[i] == s;
        let k = choose|k: int| 0 <= k < self.names().len() && self.names()[k] == t;
        assert(i != k);
    }

    /// Different ids name different strings.
    pub proof fn lemma_distinct(&self, i: int, j: int)
        requires
            self.wf(),
            0 <= i < self.names().len(),
            0 <= j < self.names().len(),
            i != j,
        ensures
            self.names()[i] != self.names()[j],
    {
    }

    pub fn new() -> (r: Self)
        ensures
            r.wf(),
            r.names() == Seq::<Seq<char>>::empty(),
    {
        let r = StringInterner { strings: Vec::new() };
        proof {
            assert(r.names() =~= Seq::<Seq<char>>::empty());
        }
        r
    }

    /// Id of `s` if it was interned; only the position of its single
    /// occurrence can be returned.
    pub fn find(&self, s: &str) -> (r: Option<InternedStr>)
        requires
            self.wf(),
        ensures
            r == self.find_spec(s@),
            r matches Some(id) ==> (id.0 as int) < self.names().len() && self.names()[id.0 as int] == s@,
    {
        let n = self.strings.len();
        let mut i: usize = 0;
        while i < n
            invariant
                n == self.strings@.len(),
                i <= n,
                self.wf(),
                forall|j: int| 0 <= j < i ==> self.names()[j] != s@,
            decreases n - i,
        {
            if str_eq(self.strings[i].as_str(), s) {
                proof {
                    assert(self.names()[i as int] == s@);
                    let k = choose|k: int| 0 <= k < self.names().len() && self.names()[k] == s@;
                    assert(k == i as int);
                }
                return Some(InternedStr(i as u32));
            }
            i = i + 1;
        }
        None
    }

    /// Interns `s`: returns its id, adding it with the next id if it is new.
    pub fn intern(&mut self, s: &str) -> (id: InternedStr)
        requires
            old(self).wf(),
            old(self).find_spec(s@) is None ==> old(self).names().len() < u32::MAX,
        ensures
            final(self).wf(),
            old(self).find_spec(s@) matches Some(old_id) ==> id == old_id && final(self).names() == old(self).names(),
            old(self).find_spec(s@) is None ==> id.0 as int == old(self).names().len()
                && final(self).names() == old(self).names().push(s@),
            (id.0 as int) < final(self).names().len(),
            final(self).names()[id.0 as int] == s@,
    {
        if let Some(id) = self.find(s) {
            return id;
        }
        let id = InternedStr(self.strings.len() as u32);
        let owned = s.to_owned();
        self.strings.push(owned);
        proof {
            assert(self.names() =~= old(self).names().push(s@));
        }
        id
    }

    /// The string interned under `id`.
    pub fn resolve(&self, id: InternedStr) -> (r: &str)
        requires
            self.wf(),
            (id.0 as int) < self.names().len(),
        ensures
            r@ == self.names()[id.0 as int],
    {
        self.strings[id.0 as usize].as_str()
    }

    /// A copy of the interner for readers.
    pub fn clone_for_read(&self) -> (r: Self)
        requires
            self.wf(),
        ensures
            r.wf(),
            r.names() == self.names(),
    {
        let mut strings: Vec<String> = Vec::new();
        let n = self.strings.len();
        let mut i: usize = 0;
        while i < n
            invariant
                n == self.strings@.len(),
                i <= n,
                strings@.len() == i,
                forall|j: int| 0 <= j < i ==> (#[trigger] strings@[j])@ == self.strings@[j]@,
            decreases n - i,
        {
            strings.push(self.strings[i].clone());
            i = i + 1;
        }
        let r = StringInterner { strings };
        proof {
            assert(r.names() =~= self.names());
        }
        r
    }

    /// Number of interned strings.
    pub fn len(&self) -> (n: usize)
        ensures
            n == self.names().len(),
    {
        self.strings.len()
    }
}

} // verus!
