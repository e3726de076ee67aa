//! An index from names to their positions in a list, by a hash of the
//! name's UTF-8 bytes, so that a name is found without a scan of the list.
use std::collections::HashMap;
use vstd::prelude::*;
use vstd::string::StringSliceAdditionalSpecFns;
use vstd::utf8::encode_utf8;

verus! {

broadcast use vstd::std_specs::hash::group_hash_axioms;

/// One step of the 64-bit FNV-1a hash.
pub open spec fn fnv_step(h: u64, b: u8) -> u64 {
    (((h ^ (b as u64)) as nat * 0x100000001b3nat) % 0x1_0000_0000_0000_0000nat) as u64
}

/// The 64-bit FNV-1a hash of the bytes.
pub open spec fn fnv(bytes: Seq<u8>) -> u64
    decreases bytes.len(),
{
    if bytes.len() == 0 {
        0xcbf29ce484222325
    } else {
        fnv_step(fnv(bytes.drop_last()), bytes.last())
    }
}

/// The key a name is filed under: the hash of its UTF-8 bytes.
pub open spec fn name_key(name: Seq<char>) -> u64 {
    fnv(encode_utf8(name))
}

pub open spec fn names_of(v: Seq<String>) -> Seq<Seq<char>> {
    v.map_values(|s: String| s@)
}

pub open spec fn first_names(v: Seq<(String, String)>) -> Seq<Seq<char>> {
    v.map_values(|p: (String, String)| p.0@)
}

fn key_of(name: &str) -> (k: u64)
    ensures
        k == name_key(name@),
{
    let bytes = name.as_bytes();
    let mut h: u64 = 0xcbf29ce484222325;
    let mut i: usize = 0;
    while i < bytes.len()
        invariant
            bytes@ == name.spec_bytes(),
            i <= bytes@.len(),
            h == fnv(bytes@.take(i as int)),
        decreases bytes@.len() - i,
    {
        assert(bytes@.take(i + 1).drop_last() =~= bytes@.take(i as int));
        h = (h ^ (bytes[i] as u64)).wrapping_mul(0x100000001b3);
        i = i + 1;
    }
    assert(bytes@.take(bytes@.len() as int) =~= bytes@);
    h
}

/// Positions in a list of names, filed under the names' keys.
pub struct NameIndex {
    slots: HashMap<u64, Vec<usize>>,
}

impl NameIndex {
    /// Every position of `names` is filed under its name's key, and every
    /// filed position lies within `names`.
    pub closed spec fn indexes(&self, names: Seq<Seq<char>>) -> bool {
        &&& forall|i: int|
            0 <= i < names.len() ==> self.slots@.contains_key(name_key(#[trigger] names[i]))
                && self.slots@[name_key(names[i])]@.contains(i as usize)
        &&& forall|h: u64, k: int|
            self.slots@.contains_key(h) && 0 <= k < self.slots@[h]@.len() ==> (#[trigger] self.slots@[h]@[k])
                < names.len()
    }

    /// An index of the empty list.
    pub fn new() -> (x: Self)
        ensures
            x.indexes(seq![]),
    {
        NameIndex { slots: HashMap::new() }
    }

    fn slot(&self, name: &str) -> (r: Option<&Vec<usize>>)
        ensures
            match r {
                Some(v) => self.slots@.contains_key(name_key(name@)) && *v == self.slots@[name_key(name@)],
                None => !self.slots@.contains_key(name_key(name@)),
            },
    {
        let k = key_of(name);
        self.slots.get(&k)
    }

    /// The position of `name` in `names`.
    pub fn find(&self, names: &Vec<String>, name: &String) -> (r: Option<usize>)
        requires
            self.indexes(names_of(names@)),
        ensures
            match r {
                Some(i) => i < names@.len() && names@[i as int]@ == name@,
                None => !names_of(names@).contains(name@),
            },
    {
        let ghost ns = names_of(names@);
        let len = names.len();
        assert(ns.len() == len);
        match self.slot(name.as_str()) {
            None => {
                proof {
                    if ns.contains(name@) {
                        let i = choose|i: int| 0 <= i < ns.len() && ns[i] == name@;
                        assert(self.slots@.contains_key(name_key(ns[i])));
                    }
                }
                None
            },
            Some(cands) => {
                let n = cands.len();
                let mut k: usize = 0;
                while k < n
                    invariant
                        self.indexes(ns),
                        ns == names_of(names@),
                        ns.len() == len,
                        self.slots@.contains_key(name_key(name@)),
                        *cands == self.slots@[name_key(name@)],
                        n == cands@.len(),
                        k <= n,
                        forall|j: int| 0 <= j < k ==> ns[cands@[j] as int] != name@,
                    decreases n - k,
                {
                    let c = cands[k];
                    assert(c < ns.len()) by {
                        assert(self.slots@[name_key(name@)]@[k as int] < ns.len());
                    }
                    if names[c] == *name {
                        return Some(c);
                    }
                    assert(ns[c as int] == names@[c as int]@);
                    k = k + 1;
                }
                proof {
                    if ns.contains(name@) {
                        let i = choose|i: int| 0 <= i < ns.len() && ns[i] == name@;
                        assert(self.slots@[name_key(ns[i])]@.contains(i as usize));
                        let j = choose|j: int| 0 <= j < cands@.len() && cands@[j] == i as usize;
                        assert(ns[cands@[j] as int] != name@);
                    }
                }
                None
            },
        }
    }

    /// The position of the pair whose first name is `name`.
    pub fn find_first(&self, pairs: &Vec<(String, String)>, name: &String) -> (r: Option<usize>)
        requires
            self.indexes(first_names(pairs@)),
        ensures
            match r {
                Some(i) => i < pairs@.len() && pairs@[i as int].0@ == name@,
                None => !first_names(pairs@).contains(name@),
            },
    {
        let ghost ns = first_names(pairs@);
        let len = pairs.len();
        assert(ns.len() == len);
        match self.slot(name.as_str()) {
            None => {
                proof {
                    if ns.contains(name@) {
                        let i = choose|i: int| 0 <= i < ns.len() && ns[i] == name@;
                        assert(self.slots@.contains_key(name_key(ns[i])));
                    }
                }
                None
            },
            Some(cands) => {
                let n = cands.len();
                let mut k: usize = 0;
                while k < n
                    invariant
                        self.indexes(ns),
                        ns == first_names(pairs@),
                        ns.len() == len,
                        self.slots@.contains_key(name_key(name@)),
                        *cands == self.slots@[name_key(name@)],
                        n == cands@.len(),
                        k <= n,
                        forall|j: int| 0 <= j < k ==> ns[cands@[j] as int] != name@,
                    decreases n - k,
                {
                    let c = cands[k];
                    assert(c < ns.len()) by {
                        assert(self.slots@[name_key(name@)]@[k as int] < ns.len());
                    }
                    if pairs[c].0 == *name {
                        return Some(c);
                    }
                    assert(ns[c as int] == pairs@[c as int].0@);
                    k = k + 1;
                }
                proof {
                    if ns.contains(name@) {
                        let i = choose|i: int| 0 <= i < ns.len() && ns[i] == name@;
                        assert(self.slots@[name_key(ns[i])]@.contains(i as usize));
                        let j = choose|j: int| 0 <= j < cands@.len() && cands@[j] == i as usize;
                        assert(ns[cands@[j] as int] != name@);
                    }
                }
                None
            },
        }
    }

    /// Files `name` at position `i`, the end of the list it indexes.
    pub fn add(&mut self, name: &str, i: usize, Ghost(names): Ghost<Seq<Seq<char>>>)
        requires
            old(self).indexes(names),
            i == names.len(),
        ensures
            final(self).indexes(names.push(name@)),
    {
        let k = key_of(name);
        let ghost before = self.slots@;
        let list = match self.slots.remove(&k) {
            Some(v) => {
                let mut v = v;
                v.push(i);
                v
            },
            None => {
                let mut v: Vec<usize> = Vec::new();
                v.push(i);
                v
            },
        };
        let ghost list_v = list@;
        self.slots.insert(k, list);
        proof {
            let ns = names.push(name@);
            assert(self.slots@ == before.insert(k, list)) by {
                assert(self.slots@ =~= before.remove(k).insert(k, list));
            }
            assert forall|j: int| 0 <= j < ns.len() implies self.slots@.contains_key(name_key(#[trigger] ns[j]))
                && self.slots@[name_key(ns[j])]@.contains(j as usize) by {
                if j < names.len() {
                    assert(ns[j] == names[j]);
                    if name_key(names[j]) == k {
                        let t = choose|t: int|
                            0 <= t < before[k]@.len() && before[k]@[t] == j as usize;
                        assert(list_v[t] == j as usize);
                    }
                } else {
                    assert(list_v[list_v.len() - 1] == i);
                }
            }
            assert forall|h: u64, t: int|
                self.slots@.contains_key(h) && 0 <= t < self.slots@[h]@.len() implies (#[trigger] self.slots@[h]@[t])
                < ns.len() by {
                if h == k {
                    if t < list_v.len() - 1 {
                        assert(list_v[t] == before[k]@[t]);
                    }
                } else {
                    assert(self.slots@[h] == before[h]);
                }
            }
        }
    }
}

} // verus!
