//! Interning of 32-byte identifiers to dense 32-bit handles. A handle is the
//! index of the identifier in the reverse table; handles grow monotonically
//! and are never reused, and the reverse mapping never changes once made.

use crate::pubkey::Pubkey;
use vstd::prelude::*;

verus! {

/// No identifier appears twice.
pub open spec fn distinct_keys(s: Seq<Pubkey>) -> bool {
    forall|i: int, j: int| 0 <= i < j < s.len() ==> s[i] != s[j]
}

/// The handle an interned identifier carries: its unique index.
pub open spec fn key_index(s: Seq<Pubkey>, pk: Pubkey) -> int {
    choose|i: int| 0 <= i < s.len() && s[i] == pk
}

/// The table after interning one identifier.
pub open spec fn spec_register(s: Seq<Pubkey>, pk: Pubkey) -> Seq<Pubkey> {
    if s.contains(pk) {
        s
    } else {
        s.push(pk)
    }
}

/// The handle interning one identifier yields.
pub open spec fn spec_registered_id(s: Seq<Pubkey>, pk: Pubkey) -> int {
    if s.contains(pk) {
        key_index(s, pk)
    } else {
        s.len() as int
    }
}

pub struct PubkeyRegistry {
    reverse: Vec<Pubkey>,
}

impl PubkeyRegistry {
    /// The interned identifiers, in handle order.
    pub closed spec fn keys(self) -> Seq<Pubkey> {
        self.reverse@
    }

    pub open spec fn wf(self) -> bool {
        &&& distinct_keys(self.keys())
        &&& self.keys().len() <= 0xffff_ffff
    }

    pub fn new() -> (r: Self)
        ensures
            r.wf(),
            r.keys() == Seq::<Pubkey>::empty(),
    {
        let r = PubkeyRegistry { reverse: Vec::new() };
        proof {
            assert(r.keys() =~= Seq::<Pubkey>::empty());
        }
        r
    }

    /// Interns an identifier: the handle of the cell already holding it, or
    /// a fresh handle one past the previous ones. Existing cells never
    /// change.
    pub fn register(&mut self, pubkey: &Pubkey) -> (r: u32)
        requires
            old(self).wf(),
            old(self).keys().len() < 0xffff_ffff,
        ensures
            final(self).wf(),
            final(self).keys() == spec_register(old(self).keys(), *pubkey),
            r as int == spec_registered_id(old(self).keys(), *pubkey),
            r < final(self).keys().len(),
            final(self).keys()[r as int] == *pubkey,
            old(self).keys().is_prefix_of(final(self).keys()),
    {
        let n = self.reverse.len();
        let mut i: usize = 0;
        while i < n
            invariant
                self.wf(),
                n == self.keys().len(),
                i <= n,
                forall|j: int| 0 <= j < i ==> self.keys()[j] != *pubkey,
                self == old(self),
            decreases n - i,
        {
            if self.reverse[i] == *pubkey {
                proof {
                    assert(self.keys().contains(*pubkey)) by {
                        assert(self.keys()[i as int] == *pubkey);
                    }
                    lemma_key_index_unique(self.keys(), *pubkey, i as int);
                }
                return i as u32;
            }
            i = i + 1;
        }
        proof {
            assert(!old(self).keys().contains(*pubkey));
        }
        self.reverse.push(*pubkey);
        proof {
            assert(old(self).keys().is_prefix_of(self.keys()));
        }
        n as u32
    }

    /// The handle an identifier already carries, if any.
    pub fn get_id(&self, pubkey: &Pubkey) -> (r: Option<u32>)
        requires
            self.wf(),
        ensures
            r is Some <==> self.keys().contains(*pubkey),
            r is Some ==> r->0 as int == key_index(self.keys(), *pubkey) && self.keys()[r->0 as int]
                == *pubkey,
    {
        let n = self.reverse.len();
        let mut i: usize = 0;
        while i < n
            invariant
                self.wf(),
                n == self.keys().len(),
                i <= n,
                forall|j: int| 0 <= j < i ==> self.keys()[j] != *pubkey,
            decreases n - i,
        {
            if self.reverse[i] == *pubkey {
                proof {
                    assert(self.keys().contains(*pubkey)) by {
                        assert(self.keys()[i as int] == *pubkey);
                    }
                    lemma_key_index_unique(self.keys(), *pubkey, i as int);
                }
                return Some(i as u32);
            }
            i = i + 1;
        }
        None
    }

    /// The identifier a handle names, if the handle was ever produced.
    pub fn get_pubkey(&self, id: u32) -> (r: Option<Pubkey>)
        ensures
            r == if (id as int) < self.keys().len() {
                Some(self.keys()[id as int])
            } else {
                None::<Pubkey>
            },
    {
        if (id as usize) < self.reverse.len() {
            Some(self.reverse[id as usize])
        } else {
            None
        }
    }
}

/// In a duplicate-free table an identifier sits at one index only, and
/// `key_index` picks exactly that one.
pub proof fn lemma_key_index_unique(s: Seq<Pubkey>, pk: Pubkey, i: int)
    requires
        distinct_keys(s),
        0 <= i < s.len(),
        s[i] == pk,
    ensures
        key_index(s, pk) == i,
{
    let k = key_index(s, pk);
    assert(0 <= k < s.len() && s[k] == pk) by {
        assert(0 <= i < s.len() && s[i] == pk);
    }
}

/// Identifier stability: once interned, an identifier keeps its handle
/// through any later interning, and interning it again yields that same
/// handle.
pub proof fn lemma_identifier_stability(s: Seq<Pubkey>, pk: Pubkey, q: Pubkey)
    requires
        distinct_keys(s),
        s.contains(pk),
    ensures
        spec_registered_id(s, pk) == key_index(s, pk),
        spec_registered_id(spec_register(s, q), pk) == spec_registered_id(s, pk),
        spec_register(s, q)[spec_registered_id(s, pk)] == pk,
{
    let i = key_index(s, pk);
    assert(0 <= i < s.len() && s[i] == pk) by {
        let w = choose|w: int| 0 <= w < s.len() && s[w] == pk;
        assert(0 <= w < s.len() && s[w] == pk);
    }
    let t = spec_register(s, q);
    assert(t[i] == pk);
    assert(t.contains(pk));
    if s.contains(q) {
        lemma_key_index_unique(s, pk, i);
    } else {
        assert(distinct_keys(t)) by {
            assert(forall|a: int| 0 <= a < s.len() ==> t[a] == s[a]);
        }
        lemma_key_index_unique(t, pk, i);
        lemma_key_index_unique(s, pk, i);
    }
}

/// A prefix extension preserves every interned identifier and its handle.
pub proof fn lemma_prefix_lookup(s1: Seq<Pubkey>, s2: Seq<Pubkey>, id: int)
    requires
        s1.is_prefix_of(s2),
        0 <= id < s1.len(),
    ensures
        s2[id] == s1[id],
{
}

/// An identifier interned before a prefix extension keeps its handle.
pub proof fn lemma_key_index_prefix(s1: Seq<Pubkey>, s2: Seq<Pubkey>, pk: Pubkey)
    requires
        distinct_keys(s2),
        s1.is_prefix_of(s2),
        s1.contains(pk),
    ensures
        s2.contains(pk),
        key_index(s2, pk) == key_index(s1, pk),
        0 <= key_index(s1, pk) < s1.len(),
{
    let w = choose|w: int| 0 <= w < s1.len() && s1[w] == pk;
    assert(s2[w] == pk);
    assert(s2.contains(pk));
    assert(distinct_keys(s1)) by {
        assert forall|i: int, j: int| 0 <= i < j < s1.len() implies s1[i] != s1[j] by {
            assert(s2[i] == s1[i] && s2[j] == s1[j]);
        }
    }
    lemma_key_index_unique(s1, pk, w);
    lemma_key_index_unique(s2, pk, w);
}

/// A prefix of a prefix is a prefix.
pub proof fn lemma_prefix_trans(a: Seq<Pubkey>, b: Seq<Pubkey>, c: Seq<Pubkey>)
    requires
        a.is_prefix_of(b),
        b.is_prefix_of(c),
    ensures
        a.is_prefix_of(c),
{
    assert(a =~= c.subrange(0, a.len() as int));
}

/// One spec-level interning step keeps the table duplicate-free, extends it
/// by at most one entry, and files the identifier under the returned handle.
pub proof fn lemma_register_frame(s: Seq<Pubkey>, pk: Pubkey)
    requires
        distinct_keys(s),
    ensures
        distinct_keys(spec_register(s, pk)),
        s.is_prefix_of(spec_register(s, pk)),
        s.len() <= spec_register(s, pk).len() <= s.len() + 1,
        0 <= spec_registered_id(s, pk) < spec_register(s, pk).len(),
        spec_register(s, pk)[spec_registered_id(s, pk)] == pk,
{
    if s.contains(pk) {
        let w = choose|w: int| 0 <= w < s.len() && s[w] == pk;
        assert(0 <= w < s.len() && s[w] == pk);
        lemma_key_index_unique(s, pk, w);
        assert(s =~= s.subrange(0, s.len() as int));
    } else {
        let t = s.push(pk);
        assert(distinct_keys(t)) by {
            assert forall|i: int, j: int| 0 <= i < j < t.len() implies t[i] != t[j] by {
                if j == t.len() - 1 {
                    if s[i] == pk {
                        assert(s.contains(pk));
                    }
                }
            }
        }
        assert(s =~= t.subrange(0, s.len() as int));
    }
}

} // verus!
