//! Signal maps: named bits, kept in the order in which the names first came.

use vstd::prelude::*;
use vstd::string::*;

verus! {

/// The mathematical value of a signal map: names with their bits, in the
/// order of first insertion.
pub type Signals = Seq<(Seq<char>, u8)>;

/// The least index at or after `i` whose entry is named `name`, or the length
/// of `m` if there is none.
pub open spec fn position<T>(m: Seq<(Seq<char>, T)>, name: Seq<char>, i: int) -> int
    decreases m.len() - i,
{
    if i < 0 || i >= m.len() {
        m.len() as int
    } else if m[i].0 == name {
        i
    } else {
        position(m, name, i + 1)
    }
}

/// The bit of the first entry named `name`, if there is one.
pub open spec fn sig_get(m: Signals, name: Seq<char>) -> Option<u8> {
    if position(m, name, 0) < m.len() {
        Some(m[position(m, name, 0)].1)
    } else {
        None
    }
}

/// The bit of `name`, where a signal that is absent reads as 0.
pub open spec fn sig_or_zero(m: Signals, name: Seq<char>) -> u8 {
    match sig_get(m, name) {
        Some(b) => b,
        None => 0,
    }
}

/// `m` with `name` set to `bit`: in its place if `name` is present, else at
/// the end.
pub open spec fn sig_put(m: Signals, name: Seq<char>, bit: u8) -> Signals {
    if position(m, name, 0) < m.len() {
        m.update(position(m, name, 0), (name, bit))
    } else {
        m.push((name, bit))
    }
}

/// `position` stays within the sequence.
pub proof fn lemma_position_bounds<T>(m: Seq<(Seq<char>, T)>, name: Seq<char>, i: int)
    requires
        0 <= i <= m.len(),
    ensures
        i <= position(m, name, i) <= m.len(),
        position(m, name, i) < m.len() ==> m[position(m, name, i)].0 == name,
    decreases m.len() - i,
{
    if i < m.len() && m[i].0 != name {
        lemma_position_bounds(m, name, i + 1);
    }
}

/// A mapping from signal names to bits.
#[derive(Debug, Clone, PartialEq, Eq)]
pub struct SignalMap {
    pub entries: Vec<(String, u8)>,
}

impl View for SignalMap {
    type V = Signals;

    open spec fn view(&self) -> Signals {
        Seq::new(self.entries.len() as nat, |i: int| (self.entries[i].0@, self.entries[i].1))
    }
}

impl SignalMap {
    /// The empty map.
    pub fn new() -> (r: Self)
        ensures
            r@ == Seq::<(Seq<char>, u8)>::empty(),
    {
        let r = SignalMap { entries: Vec::new() };
        assert(r@ =~= Seq::<(Seq<char>, u8)>::empty());
        r
    }

    /// The number of signals.
    pub fn len(&self) -> (n: usize)
        ensures
            n == self@.len(),
    {
        self.entries.len()
    }

    /// The index of the entry named `name`, or the number of signals.
    pub fn find(&self, name: &String) -> (k: usize)
        ensures
            k == position(self@, name@, 0),
            k <= self@.len(),
            k < self@.len() ==> self@[k as int].0 == name@,
    {
        let mut i: usize = 0;
        while i < self.entries.len()
            invariant
                i <= self.entries.len(),
                position(self@, name@, 0) == position(self@, name@, i as int),
            decreases self.entries.len() - i,
        {
            assert(self@[i as int].0 == self.entries[i as int].0@);
            if self.entries[i].0 == *name {
                return i;
            }
            i += 1;
        }
        i
    }

    /// The bit of `name`, if it is present.
    pub fn get(&self, name: &str) -> (r: Option<u8>)
        ensures
            r == sig_get(self@, name@),
    {
        let key = String::from_str(name);
        let k = self.find(&key);
        if k < self.entries.len() {
            Some(self.entries[k].1)
        } else {
            None
        }
    }

    /// The bit of `name`, or 0 if it is absent.
    pub fn get_or_zero(&self, name: &str) -> (r: u8)
        ensures
            r == sig_or_zero(self@, name@),
    {
        match self.get(name) {
            Some(b) => b,
            None => 0,
        }
    }

    /// Sets `name` to `bit`. A name that is already present keeps its place.
    pub fn insert(&mut self, name: String, bit: u8)
        ensures
            final(self)@ == sig_put(old(self)@, name@, bit),
    {
        let k = self.find(&name);
        let ghost before = self@;
        if k < self.entries.len() {
            self.entries.set(k, (name, bit));
            assert(self@ =~= before.update(k as int, (name@, bit)));
        } else {
            self.entries.push((name, bit));
            assert(self@ =~= before.push((name@, bit)));
        }
    }

    /// The name at place `i`.
    pub fn name_at(&self, i: usize) -> (r: String)
        requires
            i < self@.len(),
        ensures
            r@ == self@[i as int].0,
    {
        self.entries[i].0.clone()
    }

    /// The bit at place `i`.
    pub fn bit_at(&self, i: usize) -> (r: u8)
        requires
            i < self@.len(),
        ensures
            r == self@[i as int].1,
    {
        self.entries[i].1
    }
}

} // verus!
