//! The storage side: the engine capability the server consumes, and an
//! in-memory engine that realizes it.

use vstd::prelude::*;

verus! {

/// An engine failure, surfaced to the client as text.
#[derive(Debug, Clone, PartialEq, Eq)]
pub struct EngineError {
    pub msg: String,
}

/// A storage backend over one namespace of string keys and values.
///
/// An implementation owns its own synchronization and may fail for its
/// own reasons; the contract asks only that every answer agree with the
/// namespace the engine models, that a failed call change nothing, and
/// that deleting an absent key fail.
pub trait KvsEngine: Sized {
    /// The implementation's own well-formedness.
    spec fn inv(&self) -> bool;

    /// The namespace this engine holds.
    spec fn kv(&self) -> Map<Seq<char>, Seq<char>>;

    /// Reads one key.
    fn get(&mut self, key: String) -> (r: Result<Option<String>, EngineError>)
        requires
            old(self).inv(),
        ensures
            final(self).inv(),
            final(self).kv() == old(self).kv(),
            (match r {
                Ok(found) => match found {
                    Some(v) => old(self).kv().contains_key(key@) && v@ == old(self).kv()[key@],
                    None => !old(self).kv().contains_key(key@),
                },
                Err(_) => true,
            }),
    ;

    /// Writes one key.
    fn set(&mut self, key: String, value: String) -> (r: Result<(), EngineError>)
        requires
            old(self).inv(),
        ensures
            final(self).inv(),
            r matches Ok(_) ==> final(self).kv() == old(self).kv().insert(key@, value@),
            r matches Err(_) ==> final(self).kv() == old(self).kv(),
    ;

    /// Deletes one key; deleting an absent key fails.
    fn remove(&mut self, key: String) -> (r: Result<(), EngineError>)
        requires
            old(self).inv(),
        ensures
            final(self).inv(),
            r matches Ok(_) ==> old(self).kv().contains_key(key@) && final(self).kv() == old(
                self,
            ).kv().remove(key@),
            r matches Err(_) ==> final(self).kv() == old(self).kv(),
            !old(self).kv().contains_key(key@) ==> r matches Err(_),
    ;
}

/// The message an engine reports for deleting an absent key.
pub open spec fn lit_key_not_found() -> Seq<char> {
    seq!['K', 'e', 'y', ' ', 'n', 'o', 't', ' ', 'f', 'o', 'u', 'n', 'd']
}

/// No key appears twice in the list.
pub open spec fn unique_keys(s: Seq<(String, String)>) -> bool {
    forall|p: int, q: int| 0 <= p < q < s.len() ==> (#[trigger] s[p]).0@ != (#[trigger] s[q]).0@
}

/// The namespace an association list holds.
pub open spec fn assoc_map(s: Seq<(String, String)>) -> Map<Seq<char>, Seq<char>>
    decreases s.len(),
{
    if s.len() == 0 {
        Map::empty()
    } else {
        assoc_map(s.drop_last()).insert(s.last().0@, s.last().1@)
    }
}

/// Dropping the last pair keeps the keys unique.
proof fn lemma_unique_drop_last(s: Seq<(String, String)>)
    requires
        unique_keys(s),
        s.len() > 0,
    ensures
        unique_keys(s.drop_last()),
{
    let s1 = s.drop_last();
    assert forall|p: int, q: int| 0 <= p < q < s1.len() implies (#[trigger] s1[p]).0@ != (
    #[trigger] s1[q]).0@ by {
        assert(s1[p] == s[p]);
        assert(s1[q] == s[q]);
    }
}

/// With unique keys, the namespace holds a key exactly when some pair
/// carries it, and then holds that pair's value.
pub proof fn lemma_assoc_lookup(s: Seq<(String, String)>, k: Seq<char>)
    requires
        unique_keys(s),
    ensures
        assoc_map(s).contains_key(k) <==> (exists|n: int|
            0 <= n < s.len() && (#[trigger] s[n]).0@ == k),
        forall|n: int|
            0 <= n < s.len() && (#[trigger] s[n]).0@ == k ==> assoc_map(s).contains_key(k)
                && assoc_map(s)[k] == s[n].1@,
    decreases s.len(),
{
    if s.len() == 0 {
    } else {
        let s1 = s.drop_last();
        let last = s.last();
        lemma_unique_drop_last(s);
        lemma_assoc_lookup(s1, k);
        assert forall|n: int| 0 <= n < s1.len() implies s1[n] == s[n] by {}
        if k == last.0@ {
            assert(s[s.len() - 1].0@ == k);
        } else {
            if assoc_map(s1).contains_key(k) {
                let n = choose|n: int| 0 <= n < s1.len() && (#[trigger] s1[n]).0@ == k;
                assert(s[n].0@ == k);
            }
        }
    }
}

/// Removing the pair at `n` keeps the keys unique and removes exactly
/// that pair's key from the namespace.
pub proof fn lemma_assoc_remove(s: Seq<(String, String)>, n: int)
    requires
        unique_keys(s),
        0 <= n < s.len(),
    ensures
        unique_keys(s.remove(n)),
        assoc_map(s.remove(n)) == assoc_map(s).remove(s[n].0@),
    decreases s.len(),
{
    let k = s[n].0@;
    let s1 = s.drop_last();
    let last = s.last();
    lemma_unique_drop_last(s);
    let sr = s.remove(n);
    assert forall|p: int, q: int| 0 <= p < q < sr.len() implies (#[trigger] sr[p]).0@ != (
    #[trigger] sr[q]).0@ by {
        let p0: int = if p < n {
            p
        } else {
            p + 1
        };
        let q0: int = if q < n {
            q
        } else {
            q + 1
        };
        assert(sr[p] == s[p0]);
        assert(sr[q] == s[q0]);
    }
    if n == s.len() - 1 {
        assert(sr =~= s1);
        lemma_assoc_lookup(s1, k);
        assert(!assoc_map(s1).contains_key(k)) by {
            if assoc_map(s1).contains_key(k) {
                let m = choose|m: int| 0 <= m < s1.len() && (#[trigger] s1[m]).0@ == k;
                assert(s[m] == s1[m]);
            }
        }
        assert(assoc_map(s1) =~= assoc_map(s1).insert(last.0@, last.1@).remove(k));
    } else {
        lemma_assoc_remove(s1, n);
        assert(s1[n] == s[n]);
        assert(sr.drop_last() =~= s1.remove(n));
        assert(sr.last() == last);
        assert(assoc_map(sr) == assoc_map(s1.remove(n)).insert(last.0@, last.1@));
        assert(k != last.0@) by {
            assert(s[n].0@ != s[s.len() - 1].0@);
        }
        assert(assoc_map(s1).remove(k).insert(last.0@, last.1@) =~= assoc_map(s1).insert(
            last.0@,
            last.1@,
        ).remove(k));
    }
}

/// An in-memory engine: one namespace held as an association list with
/// unique keys, answering every read and write and failing only on the
/// delete of an absent key.
pub struct MemStore {
    entries: Vec<(String, String)>,
}

impl View for MemStore {
    type V = Map<Seq<char>, Seq<char>>;

    closed spec fn view(&self) -> Map<Seq<char>, Seq<char>> {
        assoc_map(self.entries@)
    }
}

impl MemStore {
    /// The store's keys are unique.
    pub closed spec fn wf(&self) -> bool {
        unique_keys(self.entries@)
    }

    /// A fresh, empty store.
    pub fn new() -> (s: MemStore)
        ensures
            s.wf(),
            s@ == Map::<Seq<char>, Seq<char>>::empty(),
    {
        MemStore { entries: Vec::new() }
    }

    /// The position of the pair holding `key`, if one does.
    fn find(&self, key: &String) -> (r: Option<usize>)
        ensures
            (match r {
                Some(n) => n < self.entries@.len() && self.entries@[n as int].0@ == key@,
                None => forall|m: int|
                    0 <= m < self.entries@.len() ==> (#[trigger] self.entries@[m]).0@ != key@,
            }),
    {
        let mut n: usize = 0;
        while n < self.entries.len()
            invariant
                n <= self.entries@.len(),
                forall|m: int| 0 <= m < n ==> (#[trigger] self.entries@[m]).0@ != key@,
            decreases self.entries@.len() - n,
        {
            if self.entries[n].0 == *key {
                return Some(n);
            }
            n = n + 1;
        }
        None
    }

    /// The value under `key`, if the store holds one.
    pub fn lookup(&self, key: &String) -> (r: Option<String>)
        requires
            self.wf(),
        ensures
            (match r {
                Some(v) => self@.contains_key(key@) && v@ == self@[key@],
                None => !self@.contains_key(key@),
            }),
    {
        proof {
            lemma_assoc_lookup(self.entries@, key@);
        }
        match self.find(key) {
            Some(n) => Some(self.entries[n].1.clone()),
            None => None,
        }
    }

    /// Binds `key` to `value`, replacing any earlier binding.
    pub fn insert(&mut self, key: String, value: String)
        requires
            old(self).wf(),
        ensures
            final(self).wf(),
            final(self)@ == old(self)@.insert(key@, value@),
    {
        let _ = self.delete(&key);
        let ghost pre = self.entries@;
        let ghost prek = key@;
        self.entries.push((key, value));
        proof {
            assert(self.entries@.drop_last() =~= pre);
            assert(assoc_map(self.entries@) == assoc_map(pre).insert(
                self.entries@.last().0@,
                self.entries@.last().1@,
            ));
            lemma_assoc_lookup(pre, prek);
            assert forall|p: int, q: int| 0 <= p < q < self.entries@.len() implies (
            #[trigger] self.entries@[p]).0@ != (#[trigger] self.entries@[q]).0@ by {
                if q == self.entries@.len() - 1 {
                    assert(self.entries@[p] == pre[p]);
                    assert(pre[p].0@ != prek);
                } else {
                    assert(self.entries@[p] == pre[p]);
                    assert(self.entries@[q] == pre[q]);
                }
            }
            assert(old(self)@.remove(prek).insert(prek, self.entries@.last().1@) =~= old(
                self,
            )@.insert(prek, self.entries@.last().1@));
        }
    }

    /// Unbinds `key`; reports whether it was bound.
    pub fn delete(&mut self, key: &String) -> (r: bool)
        requires
            old(self).wf(),
        ensures
            final(self).wf(),
            r == old(self)@.contains_key(key@),
            r ==> final(self)@ == old(self)@.remove(key@),
            !r ==> final(self)@ == old(self)@,
            !final(self)@.contains_key(key@),
    {
        proof {
            lemma_assoc_lookup(self.entries@, key@);
        }
        match self.find(key) {
            Some(n) => {
                proof {
                    lemma_assoc_remove(self.entries@, n as int);
                }
                let _ = self.entries.remove(n);
                true
            },
            None => {
                false
            },
        }
    }
}

impl KvsEngine for MemStore {
    open spec fn inv(&self) -> bool {
        self.wf()
    }

    open spec fn kv(&self) -> Map<Seq<char>, Seq<char>> {
        self@
    }

    fn get(&mut self, key: String) -> (r: Result<Option<String>, EngineError>) {
        Ok(self.lookup(&key))
    }

    fn set(&mut self, key: String, value: String) -> (r: Result<(), EngineError>) {
        self.insert(key, value);
        Ok(())
    }

    fn remove(&mut self, key: String) -> (r: Result<(), EngineError>) {
        if self.delete(&key) {
            Ok(())
        } else {
            Err(EngineError { msg: key_not_found_message() })
        }
    }
}

/// The text reported for deleting an absent key.
pub fn key_not_found_message() -> (s: String)
    ensures
        s@ == lit_key_not_found(),
{
    let mut v: Vec<char> = Vec::new();
    v.push('K');
    v.push('e');
    v.push('y');
    v.push(' ');
    v.push('n');
    v.push('o');
    v.push('t');
    v.push(' ');
    v.push('f');
    v.push('o');
    v.push('u');
    v.push('n');
    v.push('d');
    proof {
        assert(v@ =~= lit_key_not_found());
    }
    crate::codec::string_from_chars(v)
}

} // verus!
