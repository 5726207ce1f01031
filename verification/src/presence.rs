use vstd::prelude::*;

use crate::identity::Identity;
use crate::text::push_char;

verus! {

/// Number of characters in the fallback label for an unknown identity:
/// the hex digits of its first five bytes.
pub const FALLBACK_LABEL_LEN: usize = 10;

/// One presence record: an identity and its last announced display name.
pub struct PresenceEntry {
    pub id: Identity,
    pub name: String,
}

/// The presence directory: a table from participant identity to the display
/// name it last announced, mutated only by presence announcements.
pub struct Presence {
    pub entries: Vec<PresenceEntry>,
}

/// The name stored for `k`, scanning the entries front to back.
pub open spec fn lookup(s: Seq<PresenceEntry>, k: Seq<u8>) -> Option<Seq<char>>
    decreases s.len(),
{
    if s.len() == 0 {
        None
    } else if s[0].id@ == k {
        Some(s[0].name@)
    } else {
        lookup(s.drop_first(), k)
    }
}

impl View for Presence {
    type V = Map<Seq<u8>, Seq<char>>;

    open spec fn view(&self) -> Map<Seq<u8>, Seq<char>> {
        Map::new(
            |k: Seq<u8>| lookup(self.entries@, k) is Some,
            |k: Seq<u8>|
                match lookup(self.entries@, k) {
                    Some(v) => v,
                    None => Seq::<char>::empty(),
                },
        )
    }
}

/// The low nibble or high nibble of byte `i / 2` of `id`.
pub open spec fn nibble_at(id: Seq<u8>, i: int) -> u8 {
    if i % 2 == 0 {
        (id[i / 2] >> 4) as u8
    } else {
        (id[i / 2] & 0xf) as u8
    }
}

/// The lower-case hex digit for a nibble.
pub open spec fn hex_digit(n: u8) -> char
    recommends
        n < 16,
{
    if n < 10 {
        (((n + 48) as u8) as char)
    } else {
        (((n + 87) as u8) as char)
    }
}

/// The deterministic fallback label derived from an identity's bytes:
/// the hex digits of its first five bytes. Never empty.
pub open spec fn fallback_label(id: Seq<u8>) -> Seq<char> {
    Seq::new(FALLBACK_LABEL_LEN as nat, |i: int| hex_digit(nibble_at(id, i)))
}

/// The label shown for `id`: its stored display name, or the fallback
/// label when no announcement has been seen.
pub open spec fn resolve_label_spec(m: Map<Seq<u8>, Seq<char>>, id: Seq<u8>) -> Seq<char> {
    if m.contains_key(id) {
        m[id]
    } else {
        fallback_label(id)
    }
}

proof fn lemma_lookup_some_index(s: Seq<PresenceEntry>, k: Seq<u8>)
    ensures
        (lookup(s, k) is Some) <==> (exists|i: int| 0 <= i < s.len() && s[i].id@ == k),
    decreases s.len(),
{
    if s.len() > 0 {
        lemma_lookup_some_index(s.drop_first(), k);
        if s[0].id@ != k {
            if exists|i: int| 0 <= i < s.len() && s[i].id@ == k {
                let i = choose|i: int| 0 <= i < s.len() && s[i].id@ == k;
                assert(s.drop_first()[i - 1].id@ == k);
            }
            if exists|i: int| 0 <= i < s.drop_first().len() && s.drop_first()[i].id@ == k {
                let i = choose|i: int|
                    0 <= i < s.drop_first().len() && s.drop_first()[i].id@ == k;
                assert(s[i + 1].id@ == k);
            }
        }
    }
}

proof fn lemma_lookup_at(s: Seq<PresenceEntry>, k: Seq<u8>, i: int)
    requires
        0 <= i < s.len(),
        s[i].id@ == k,
        forall|j: int| 0 <= j < i ==> s[j].id@ != k,
    ensures
        lookup(s, k) == Some(s[i].name@),
    decreases s.len(),
{
    if i > 0 {
        lemma_lookup_at(s.drop_first(), k, i - 1);
    }
}

proof fn lemma_lookup_update(s: Seq<PresenceEntry>, i: int, e: PresenceEntry, k: Seq<u8>)
    requires
        0 <= i < s.len(),
        forall|p: int, q: int| 0 <= p < q < s.len() ==> s[p].id@ != s[q].id@,
        e.id@ == s[i].id@,
    ensures
        lookup(s.update(i, e), k) == (if k == e.id@ {
            Some(e.name@)
        } else {
            lookup(s, k)
        }),
    decreases s.len(),
{
    if i == 0 {
        assert(s.update(0, e)[0] == e);
        assert(s.update(0, e).drop_first() =~= s.drop_first());
        if k == e.id@ {
        } else {
        }
    } else {
        assert(s.update(i, e)[0] == s[0]);
        assert(s.update(i, e).drop_first() =~= s.drop_first().update(i - 1, e));
        lemma_lookup_update(s.drop_first(), i - 1, e, k);
        if k == e.id@ {
            assert(s[0].id@ != s[i].id@);
        }
    }
}

proof fn lemma_lookup_push(s: Seq<PresenceEntry>, e: PresenceEntry, k: Seq<u8>)
    ensures
        lookup(s.push(e), k) == (if lookup(s, k) is Some {
            lookup(s, k)
        } else if k == e.id@ {
            Some(e.name@)
        } else {
            None::<Seq<char>>
        }),
    decreases s.len(),
{
    if s.len() == 0 {
        assert(s.push(e)[0] == e);
        assert(s.push(e).drop_first() =~= Seq::<PresenceEntry>::empty());
    } else {
        assert(s.push(e)[0] == s[0]);
        assert(s.push(e).drop_first() =~= s.drop_first().push(e));
        lemma_lookup_push(s.drop_first(), e, k);
    }
}

impl Presence {
    /// Entries are well formed and no identity occurs twice.
    pub open spec fn wf(&self) -> bool {
        &&& forall|i: int, j: int|
            0 <= i < j < self.entries@.len() ==> self.entries@[i].id@ != self.entries@[j].id@
        &&& forall|i: int| 0 <= i < self.entries@.len() ==> (#[trigger] self.entries@[i].id).wf()
    }

    /// An empty directory.
    pub fn new() -> (r: Presence)
        ensures
            r.wf(),
            r@ == Map::<Seq<u8>, Seq<char>>::empty(),
    {
        let r = Presence { entries: Vec::new() };
        proof {
            assert(r@ =~= Map::<Seq<u8>, Seq<char>>::empty());
        }
        r
    }

    /// Whether a name has been recorded for `id`.
    pub fn contains(&self, id: &Identity) -> (r: bool)
        ensures
            r == self@.contains_key(id@),
    {
        let mut i: usize = 0;
        while i < self.entries.len()
            invariant
                i <= self.entries@.len(),
                forall|j: int| 0 <= j < i ==> self.entries@[j].id@ != id@,
            decreases self.entries@.len() - i,
        {
            if self.entries[i].id.same_as(id) {
                proof {
                    lemma_lookup_some_index(self.entries@, id@);
                }
                return true;
            }
            i += 1;
        }
        proof {
            lemma_lookup_some_index(self.entries@, id@);
        }
        false
    }

    /// Records the latest announced name for `from`, overwriting any
    /// earlier one. Returns whether `from` was new to the directory, which
    /// is when a "joined" notice is due.
    pub fn observe_about_me(&mut self, from: &Identity, name: String) -> (joined: bool)
        requires
            old(self).wf(),
            from.wf(),
        ensures
            final(self).wf(),
            final(self)@ == old(self)@.insert(from@, name@),
            joined == !old(self)@.contains_key(from@),
    {
        let ghost s0 = self.entries@;
        let mut i: usize = 0;
        while i < self.entries.len()
            invariant
                self.entries@ == s0,
                s0 == old(self).entries@,
                old(self).wf(),
                from.wf(),
                i <= s0.len(),
                forall|j: int| 0 <= j < i ==> s0[j].id@ != from@,
            decreases s0.len() - i,
        {
            if self.entries[i].id.same_as(from) {
                let e = PresenceEntry { id: from.duplicate(), name };
                let slot = vstd::std_specs::vec::vec_index_mut(&mut self.entries, i);
                *slot = e;
                proof {
                    lemma_lookup_some_index(s0, from@);
                    assert forall|k: Seq<u8>|
                        lookup(self.entries@, k) == (if k == from@ {
                            Some(name@)
                        } else {
                            lookup(s0, k)
                        }) by {
                        lemma_lookup_update(s0, i as int, e, k);
                    }
                    assert(self@ =~= old(self)@.insert(from@, name@));
                    assert forall|p: int, q: int|
                        0 <= p < q < self.entries@.len() implies self.entries@[p].id@
                        != self.entries@[q].id@ by {
                        assert(s0[p].id@ != s0[q].id@);
                    }
                }
                return false;
            }
            i += 1;
        }
        let e = PresenceEntry { id: from.duplicate(), name };
        self.entries.push(e);
        proof {
            lemma_lookup_some_index(s0, from@);
            assert(lookup(s0, from@) is None);
            assert forall|k: Seq<u8>|
                lookup(self.entries@, k) == (if lookup(s0, k) is Some {
                    lookup(s0, k)
                } else if k == from@ {
                    Some(name@)
                } else {
                    None::<Seq<char>>
                }) by {
                lemma_lookup_push(s0, e, k);
            }
            assert(self@ =~= old(self)@.insert(from@, name@));
        }
        true
    }

    /// The display label for `id`: the stored name, or the deterministic
    /// non-empty fallback derived from the identity bytes.
    pub fn resolve_label(&self, id: &Identity) -> (r: String)
        requires
            id.wf(),
        ensures
            r@ == resolve_label_spec(self@, id@),
    {
        let mut i: usize = 0;
        while i < self.entries.len()
            invariant
                i <= self.entries@.len(),
                forall|j: int| 0 <= j < i ==> self.entries@[j].id@ != id@,
            decreases self.entries@.len() - i,
        {
            if self.entries[i].id.same_as(id) {
                proof {
                    lemma_lookup_at(self.entries@, id@, i as int);
                }
                return self.entries[i].name.clone();
            }
            i += 1;
        }
        proof {
            lemma_lookup_some_index(self.entries@, id@);
        }
        fallback_of(id)
    }
}

/// Builds the fallback label of an identity: lower-case hex of its first
/// five bytes.
pub fn fallback_of(id: &Identity) -> (r: String)
    requires
        id.wf(),
    ensures
        r@ == fallback_label(id@),
        r@.len() == FALLBACK_LABEL_LEN,
{
    let mut s = String::new();
    let mut i: usize = 0;
    while i < FALLBACK_LABEL_LEN
        invariant
            id.wf(),
            i <= FALLBACK_LABEL_LEN,
            s@ == fallback_label(id@).subrange(0, i as int),
        decreases FALLBACK_LABEL_LEN - i,
    {
        let b = id.bytes[i / 2];
        let nib: u8 = if i % 2 == 0 {
            b >> 4
        } else {
            b & 0xf
        };
        proof {
            assert(b >> 4 < 16 && b & 0xf < 16) by (bit_vector);
        }
        let c: char = if nib < 10 {
            (nib + 48) as char
        } else {
            (nib + 87) as char
        };
        push_char(&mut s, c);
        proof {
            assert(c == hex_digit(nibble_at(id@, i as int)));
            assert(s@ =~= fallback_label(id@).subrange(0, i as int + 1));
        }
        i += 1;
    }
    proof {
        assert(s@ =~= fallback_label(id@));
    }
    s
}

} // verus!
