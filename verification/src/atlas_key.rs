//! The key of an atlas: for each texture name, where its texture was placed.

use vstd::prelude::*;

verus! {

/// Metadata that describes a texture's placement inside the atlas.
#[derive(Clone, Copy, Debug, PartialEq, Eq, Structural)]
pub struct AtlasEntry {
    pub x: u32,
    pub y: u32,
    pub width: u32,
    pub height: u32,
    pub rotated: bool,
}

impl AtlasEntry {
    pub fn new(x: u32, y: u32, width: u32, height: u32, rotated: bool) -> (e: Self)
        ensures
            e == (AtlasEntry { x, y, width, height, rotated }),
    {
        return AtlasEntry { x, y, width, height, rotated };
    }
}

/// How the `rotated` flag is written out: `true` as 1 and `false` as 0.
pub fn bool_as_int(value: bool) -> (r: u8)
    ensures
        r == (if value { 1u8 } else { 0u8 }),
{
    if value {
        1
    } else {
        0
    }
}

/// The map that a list of (name, entry) pairs stands for, a later pair
/// overriding an earlier one with the same name.
pub open spec fn key_map(s: Seq<(String, AtlasEntry)>) -> Map<Seq<char>, AtlasEntry>
    decreases s.len(),
{
    if s.len() == 0 {
        Map::empty()
    } else {
        key_map(s.drop_last()).insert(s.last().0@, s.last().1)
    }
}

/// No two pairs carry the same name.
pub open spec fn names_distinct(s: Seq<(String, AtlasEntry)>) -> bool {
    forall|i: int, j: int| 0 <= i < s.len() && 0 <= j < s.len() && i != j ==> s[i].0@ != s[j].0@
}

/// Adding a pair at the end sets its name's entry.
pub proof fn lemma_key_map_push(s: Seq<(String, AtlasEntry)>, p: (String, AtlasEntry))
    ensures
        key_map(s.push(p)) == key_map(s).insert(p.0@, p.1),
{
    assert(s.push(p).drop_last() =~= s);
}

/// With distinct names, pair `i` is what its name maps to.
pub proof fn lemma_key_map_index(s: Seq<(String, AtlasEntry)>, i: int)
    requires
        names_distinct(s),
        0 <= i < s.len(),
    ensures
        key_map(s).contains_key(s[i].0@),
        key_map(s)[s[i].0@] == s[i].1,
    decreases s.len(),
{
    if i < s.len() - 1 {
        let d = s.drop_last();
        assert(d[i] == s[i]);
        lemma_key_map_index(d, i);
    }
}

/// A name that no pair carries is not in the map.
pub proof fn lemma_key_map_absent(s: Seq<(String, AtlasEntry)>, k: Seq<char>)
    requires
        forall|i: int| 0 <= i < s.len() ==> s[i].0@ != k,
    ensures
        !key_map(s).contains_key(k),
    decreases s.len(),
{
    if s.len() > 0 {
        let d = s.drop_last();
        assert forall|i: int| 0 <= i < d.len() implies d[i].0@ != k by {
            assert(d[i] == s[i]);
        }
        lemma_key_map_absent(d, k);
    }
}

/// Replacing the pair that carries a name replaces that name's entry.
pub proof fn lemma_key_map_update(s: Seq<(String, AtlasEntry)>, i: int, p: (String, AtlasEntry))
    requires
        names_distinct(s),
        0 <= i < s.len(),
        s[i].0@ == p.0@,
    ensures
        key_map(s.update(i, p)) == key_map(s).insert(p.0@, p.1),
    decreases s.len(),
{
    let d = s.drop_last();
    if i == s.len() - 1 {
        assert(s.update(i, p).drop_last() =~= d);
        assert(key_map(s.update(i, p)) =~= key_map(s).insert(p.0@, p.1));
    } else {
        assert(s.update(i, p).drop_last() =~= d.update(i, p));
        assert(d[i] == s[i]);
        lemma_key_map_update(d, i, p);
        assert(s.last().0@ != p.0@) by {
            assert(s[s.len() - 1] == s.last());
        }
        assert(key_map(s.update(i, p)) =~= key_map(s).insert(p.0@, p.1));
    }
}

/// A map from texture names to their entries, kept as a list of pairs with
/// distinct names.
pub struct AtlasKey {
    entries: Vec<(String, AtlasEntry)>,
}

impl View for AtlasKey {
    type V = Map<Seq<char>, AtlasEntry>;

    closed spec fn view(&self) -> Map<Seq<char>, AtlasEntry> {
        key_map(self.entries@)
    }
}

impl AtlasKey {
    #[verifier::type_invariant]
    closed spec fn inv(self) -> bool {
        names_distinct(self.entries@)
    }

    /// The empty key.
    pub fn new() -> (k: Self)
        ensures
            k@ == Map::<Seq<char>, AtlasEntry>::empty(),
    {
        AtlasKey { entries: Vec::new() }
    }

    /// Removes every entry.
    pub fn clear(&mut self)
        ensures
            final(self)@ == Map::<Seq<char>, AtlasEntry>::empty(),
    {
        self.entries = Vec::new();
    }

    /// Sets the entry of `name`, replacing the one it had.
    pub fn insert(&mut self, name: String, entry: AtlasEntry)
        ensures
            final(self)@ == old(self)@.insert(name@, entry),
    {
        proof {
            use_type_invariant(&*self);
        }
        let mut entries: Vec<(String, AtlasEntry)> = Vec::new();
        std::mem::swap(&mut entries, &mut self.entries);
        let ghost s = entries@;
        let mut i: usize = 0;
        while i < entries.len()
            invariant
                entries@ == s,
                names_distinct(s),
                key_map(s) == old(self)@,
                0 <= i <= s.len(),
                forall|j: int| 0 <= j < i ==> s[j].0@ != name@,
            decreases s.len() - i,
        {
            if entries[i].0 == name {
                proof {
                    lemma_key_map_update(s, i as int, (name, entry));
                    assert forall|a: int, b: int|
                        0 <= a < s.len() && 0 <= b < s.len() && a != b
                        implies #[trigger] s.update(i as int, (name, entry))[a].0@
                            != #[trigger] s.update(i as int, (name, entry))[b].0@ by {
                    }
                }
                entries.set(i, (name, entry));
                self.entries = entries;
                return;
            }
            i = i + 1;
        }
        proof {
            lemma_key_map_push(s, (name, entry));
            assert forall|a: int, b: int|
                0 <= a < s.len() + 1 && 0 <= b < s.len() + 1 && a != b
                implies #[trigger] s.push((name, entry))[a].0@ != #[trigger] s.push((name, entry))[b].0@ by {
            }
        }
        entries.push((name, entry));
        self.entries = entries;
    }

    /// The entry of `name`, if it has one.
    pub fn get(&self, name: &String) -> (e: Option<AtlasEntry>)
        ensures
            e == (if self@.contains_key(name@) { Some(self@[name@]) } else { None }),
    {
        proof {
            use_type_invariant(self);
        }
        let mut i: usize = 0;
        while i < self.entries.len()
            invariant
                0 <= i <= self.entries@.len(),
                names_distinct(self.entries@),
                forall|j: int| 0 <= j < i ==> self.entries@[j].0@ != name@,
            decreases self.entries@.len() - i,
        {
            if self.entries[i].0 == *name {
                proof {
                    lemma_key_map_index(self.entries@, i as int);
                }
                return Some(self.entries[i].1);
            }
            i = i + 1;
        }
        proof {
            lemma_key_map_absent(self.entries@, name@);
        }
        None
    }

    /// The (name, entry) pairs, one per name.
    pub fn entries(&self) -> (v: &Vec<(String, AtlasEntry)>)
        ensures
            key_map(v@) == self@,
            names_distinct(v@),
    {
        proof {
            use_type_invariant(self);
        }
        &self.entries
    }
}

} // verus!
