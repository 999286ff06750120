//! What the launcher keeps between runs.

use vstd::prelude::*;

verus! {

/// A map from names to strings, kept as the list of its entries; a later entry for a
/// key stands over an earlier one.
pub struct StringMap {
    pairs: Vec<(String, String)>,
}

/// The map that a list of entries stands for, later entries winning.
pub open spec fn pairs_map(ps: Seq<(String, String)>) -> Map<Seq<char>, Seq<char>>
    decreases ps.len(),
{
    if ps.len() == 0 {
        Map::empty()
    } else {
        pairs_map(ps.drop_last()).insert(ps.last().0@, ps.last().1@)
    }
}

impl View for StringMap {
    type V = Map<Seq<char>, Seq<char>>;

    closed spec fn view(&self) -> Map<Seq<char>, Seq<char>> {
        pairs_map(self.pairs@)
    }
}

impl StringMap {
    /// An empty map.
    pub fn new() -> (m: Self)
        ensures
            m@ == Map::<Seq<char>, Seq<char>>::empty(),
    {
        StringMap { pairs: Vec::new() }
    }

    /// The map holding `pairs`, a later pair for a key standing over an earlier one.
    pub fn from_pairs(pairs: Vec<(String, String)>) -> (m: Self)
        ensures
            m@ == pairs_map(pairs@),
    {
        StringMap { pairs }
    }

    /// The entries of the map, in the order they were made; a later entry for a key
    /// stands over an earlier one.
    pub fn to_pairs(&self) -> (r: Vec<(String, String)>)
        ensures
            pairs_map(r@) == self@,
    {
        let mut out: Vec<(String, String)> = Vec::new();
        let mut i: usize = 0;
        while i < self.pairs.len()
            invariant
                i <= self.pairs.len(),
                out@ == self.pairs@.take(i as int),
            decreases self.pairs.len() - i,
        {
            let k = self.pairs[i].0.clone();
            let v = self.pairs[i].1.clone();
            out.push((k, v));
            proof {
                assert(out@ =~= self.pairs@.take(i + 1));
            }
            i += 1;
        }
        proof {
            assert(self.pairs@.take(self.pairs.len() as int) =~= self.pairs@);
        }
        out
    }

    /// The value stored for `key`, if any.
    pub fn get(&self, key: &String) -> (r: Option<String>)
        ensures
            r.is_some() == self@.contains_key(key@),
            r matches Some(v) ==> v@ == self@[key@],
    {
        let mut i = self.pairs.len();
        proof {
            assert(self.pairs@.take(i as int) =~= self.pairs@);
        }
        while i > 0
            invariant
                i <= self.pairs.len(),
                self@.contains_key(key@) == pairs_map(self.pairs@.take(i as int)).contains_key(key@),
                self@.contains_key(key@) ==> self@[key@] == pairs_map(self.pairs@.take(i as int))[key@],
            decreases i,
        {
            let ghost t = self.pairs@.take(i as int);
            proof {
                assert(t.drop_last() =~= self.pairs@.take(i - 1));
            }
            if self.pairs[i - 1].0 == *key {
                return Some(self.pairs[i - 1].1.clone());
            }
            i -= 1;
        }
        proof {
            assert(self.pairs@.take(0) =~= Seq::<(String, String)>::empty());
        }
        None
    }

    /// Removes the entry for `key`.
    pub fn remove(&mut self, key: &String)
        ensures
            final(self)@ == old(self)@.remove(key@),
    {
        let mut kept: Vec<(String, String)> = Vec::new();
        let mut i: usize = 0;
        while i < self.pairs.len()
            invariant
                i <= self.pairs.len(),
                pairs_map(kept@) == pairs_map(self.pairs@.take(i as int)).remove(key@),
            decreases self.pairs.len() - i,
        {
            let ghost t = self.pairs@.take(i + 1);
            proof {
                assert(t.drop_last() =~= self.pairs@.take(i as int));
            }
            if !(self.pairs[i].0 == *key) {
                let k = self.pairs[i].0.clone();
                let v = self.pairs[i].1.clone();
                let ghost before = kept@;
                kept.push((k, v));
                proof {
                    assert(kept@.drop_last() =~= before);
                    assert(pairs_map(kept@) =~= pairs_map(t).remove(key@));
                }
            } else {
                proof {
                    assert(pairs_map(kept@) =~= pairs_map(t).remove(key@));
                }
            }
            i += 1;
        }
        proof {
            assert(self.pairs@.take(self.pairs.len() as int) =~= self.pairs@);
        }
        self.pairs = kept;
    }

    /// Stores `value` for `key`, in place of any value it had.
    pub fn insert(&mut self, key: String, value: String)
        ensures
            final(self)@ == old(self)@.insert(key@, value@),
    {
        self.remove(&key);
        let ghost before = self.pairs@;
        self.pairs.push((key, value));
        proof {
            assert(self.pairs@.drop_last() =~= before);
            assert(self@ =~= old(self)@.insert(key@, value@));
        }
    }
}

/// The user's settings.
pub struct Settings {
    pub username: String,
    pub auto_check_minutes: u64,
}

impl Default for Settings {
    fn default() -> (s: Self)
        ensures
            s.username@ == "russus87"@,
            s.auto_check_minutes == 60,
    {
        Settings { username: String::from_str("russus87"), auto_check_minutes: 60 }
    }
}

/// Persisted between runs.
pub struct Persisted {
    pub settings: Settings,
    /// Repo names we have already seen — used to flag genuinely new projects.
    pub known_repos: Vec<String>,
    /// For platforms without a package manager (macOS): repo -> installed version.
    pub installed: StringMap,
    /// repo -> last release tag we notified about (avoid repeat notifications).
    pub notified: StringMap,
}

impl Default for Persisted {
    fn default() -> (p: Self)
        ensures
            p.settings.username@ == "russus87"@,
            p.settings.auto_check_minutes == 60,
            p.known_repos@.len() == 0,
            p.installed@ == Map::<Seq<char>, Seq<char>>::empty(),
            p.notified@ == Map::<Seq<char>, Seq<char>>::empty(),
    {
        Persisted {
            settings: Settings::default(),
            known_repos: Vec::new(),
            installed: StringMap::new(),
            notified: StringMap::new(),
        }
    }
}

} // verus!
