//! Sets of grid coordinates.
//!
//! A coordinate is a pair of `i32`. The hash sets of the standard library are
//! modelled for primitive keys, so a [`CellSet`] stores each coordinate packed
//! into one `u64` key and presents itself as a mathematical set of pairs.

use std::collections::HashSet;
use vstd::prelude::*;
use vstd::relations::injective_on;
use vstd::set_lib::*;
use vstd::std_specs::iter::IteratorSpec;

verus! {

/// A grid coordinate `(x, y)`.
pub type Cell = (i32, i32);

/// The key under which a coordinate is stored: both components shifted into
/// the unsigned range, `x` in the upper and `y` in the lower 32 bits.
pub open spec fn cell_key(c: Cell) -> u64 {
    ((c.0 + 0x8000_0000) * 0x1_0000_0000 + (c.1 + 0x8000_0000)) as u64
}

/// The coordinate that is stored under a key.
pub open spec fn key_cell(k: u64) -> Cell {
    ((k / 0x1_0000_0000 - 0x8000_0000) as i32, (k % 0x1_0000_0000 - 0x8000_0000) as i32)
}

/// Packing and unpacking are inverse to each other.
pub proof fn lemma_key_roundtrip()
    ensures
        forall|c: Cell| #[trigger] key_cell(cell_key(c)) == c,
        forall|k: u64| #[trigger] cell_key(key_cell(k)) == k,
{
}

fn pack(c: Cell) -> (k: u64)
    ensures
        k == cell_key(c),
{
    let hi: u64 = (c.0 as i64 + 0x8000_0000) as u64;
    let lo: u64 = (c.1 as i64 + 0x8000_0000) as u64;
    hi * 0x1_0000_0000 + lo
}

fn unpack(k: u64) -> (c: Cell)
    ensures
        c == key_cell(k),
{
    let hi: i64 = (k / 0x1_0000_0000) as i64;
    let lo: i64 = (k % 0x1_0000_0000) as i64;
    ((hi - 0x8000_0000) as i32, (lo - 0x8000_0000) as i32)
}

/// A finite set of coordinates with constant-time insertion, removal and
/// membership test.
pub struct CellSet {
    keys: HashSet<u64>,
}

impl View for CellSet {
    type V = Set<Cell>;

    closed spec fn view(&self) -> Set<Cell> {
        self.keys@.map(|k: u64| key_cell(k))
    }
}

impl Clone for CellSet {
    /// A set of the same coordinates.
    fn clone(&self) -> (copy: Self)
        ensures
            copy@ == self@,
    {
        let mut keys: HashSet<u64> = HashSet::new();
        let ghost listed = vstd::std_specs::hash::spec_hash_keys_iter(&self.keys).remaining();
        proof {
            vstd::std_specs::hash::axiom_spec_hash_keys_iter(&self.keys);
        }
        for k in it: self.keys.iter()
            invariant
                it.seq() == listed,
                keys@ == listed.take(it.index()).unref().to_set(),
        {
            proof {
                let i = it.index();
                assert(listed.take(i + 1).unref() =~= listed.take(i).unref().push(*k));
                listed.take(i).unref().lemma_push_to_set_commute(*k);
            }
            keys.insert(*k);
        }
        proof {
            assert(listed.take(listed.len() as int) =~= listed);
        }
        CellSet { keys }
    }
}

impl CellSet {
    /// The view is the image of the stored keys, one coordinate per key.
    proof fn lemma_view(&self)
        ensures
            self@.finite(),
            self@.len() == self.keys@.len(),
            self.keys@.finite(),
            forall|c: Cell| self@.contains(c) == self.keys@.contains(cell_key(c)),
    {
        lemma_key_roundtrip();
        let f = |k: u64| key_cell(k);
        let it = vstd::std_specs::hash::spec_hash_keys_iter(&self.keys);
        vstd::std_specs::hash::axiom_spec_hash_keys_iter(&self.keys);
        vstd::seq_lib::seq_to_set_is_finite(it.remaining().unref());
        assert(self.keys@.finite());
        assert(injective_on(f, self.keys@)) by {
            assert forall|a: u64, b: u64| #[trigger] f(a) == #[trigger] f(b) implies a == b by {
                assert(cell_key(key_cell(a)) == a);
                assert(cell_key(key_cell(b)) == b);
            }
        }
        lemma_map_size(self.keys@, self@, f);
        assert forall|c: Cell| self@.contains(c) == self.keys@.contains(cell_key(c)) by {
            if self.keys@.contains(cell_key(c)) {
                assert(f(cell_key(c)) == c);
            }
        }
    }

    /// Every cell set is finite, and its size fits the machine word.
    pub proof fn lemma_finite(&self)
        ensures
            self@.finite(),
            self@.len() <= usize::MAX,
    {
        self.lemma_view();
        assert(self.keys.len() == self.keys@.len());
    }

    /// Creates an empty set.
    pub fn new() -> (s: Self)
        ensures
            s@ == Set::<Cell>::empty(),
    {
        let s = CellSet { keys: HashSet::new() };
        assert(s@ =~= Set::<Cell>::empty());
        s
    }

    /// Number of coordinates in the set.
    pub fn len(&self) -> (n: usize)
        ensures
            n == self@.len(),
    {
        proof {
            self.lemma_view();
        }
        self.keys.len()
    }

    /// Whether the set holds `c`.
    pub fn contains(&self, c: Cell) -> (b: bool)
        ensures
            b == self@.contains(c),
    {
        proof {
            self.lemma_view();
        }
        let k = pack(c);
        self.keys.contains(&k)
    }

    /// Adds `c` and reports whether it was absent before.
    pub fn insert(&mut self, c: Cell) -> (fresh: bool)
        ensures
            final(self)@ == old(self)@.insert(c),
            fresh == !old(self)@.contains(c),
    {
        proof {
            self.lemma_view();
        }
        let k = pack(c);
        let fresh = self.keys.insert(k);
        proof {
            self.lemma_view();
            assert(self@ =~= old(self)@.insert(c)) by {
                lemma_key_roundtrip();
            }
        }
        fresh
    }

    /// Takes `c` out and reports whether it was present before.
    pub fn remove(&mut self, c: Cell) -> (present: bool)
        ensures
            final(self)@ == old(self)@.remove(c),
            present == old(self)@.contains(c),
    {
        proof {
            self.lemma_view();
        }
        let k = pack(c);
        let present = self.keys.remove(&k);
        proof {
            self.lemma_view();
            assert(self@ =~= old(self)@.remove(c)) by {
                lemma_key_roundtrip();
            }
        }
        present
    }

    /// The coordinates of the set, each once, in no particular order.
    pub fn to_vec(&self) -> (v: Vec<Cell>)
        ensures
            v@.no_duplicates(),
            v@.to_set() == self@,
            v@.len() == self@.len(),
    {
        let mut v: Vec<Cell> = Vec::new();
        let ghost keys = vstd::std_specs::hash::spec_hash_keys_iter(&self.keys).remaining();
        proof {
            self.lemma_view();
            lemma_key_roundtrip();
            vstd::std_specs::hash::axiom_spec_hash_keys_iter(&self.keys);
        }
        for k in it: self.keys.iter()
            invariant
                it.seq() == keys,
                v@.len() == it.index(),
                forall|i: int| 0 <= i < v@.len() ==> v@[i] == key_cell(*keys[i]),
        {
            v.push(unpack(*k));
        }
        proof {
            assert(v@.len() == keys.len());
            assert forall|i: int, j: int| 0 <= i < v@.len() && 0 <= j < v@.len() && i != j implies v@[i]
                != v@[j] by {
                assert(cell_key(key_cell(*keys[i])) == *keys[i]);
                assert(cell_key(key_cell(*keys[j])) == *keys[j]);
                assert(keys.unref()[i] == *keys[i]);
                assert(keys.unref()[j] == *keys[j]);
            }
            assert forall|c: Cell| v@.to_set().contains(c) == self@.contains(c) by {
                if v@.to_set().contains(c) {
                    let i = choose|i: int| 0 <= i < v@.len() && v@[i] == c;
                    assert(keys.unref()[i] == *keys[i]);
                    assert(keys.unref().to_set().contains(*keys[i]));
                }
                if self@.contains(c) {
                    assert(keys.unref().to_set().contains(cell_key(c)));
                    let i = choose|i: int| 0 <= i < keys.unref().len() && keys.unref()[i] == cell_key(c);
                    assert(v@[i] == c);
                }
            }
            assert(v@.to_set() =~= self@);
        }
        v
    }
}

} // verus!
