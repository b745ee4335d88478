//! Pins: names for checkpoints that protect them from collection.

use vstd::prelude::*;
use vstd::string::StringSliceAdditionalSpecFns;
use crate::ignore_rules::text_bytes;
use crate::ipc::Pin;
use crate::path_order::same_bytes;

verus! {

/// A pin as a mathematical value: the bytes of its name, and the checkpoint.
pub type PinView = (Seq<u8>, u128);

/// The mathematical value of a list of pins.
pub open spec fn pins_view(pins: Seq<Pin>) -> Seq<PinView> {
    Seq::new(pins.len(), |i: int| (text_bytes(pins[i].name@), pins[i].id))
}

/// No two pins have one name.
pub open spec fn distinct_names(pins: Seq<PinView>) -> bool {
    forall|i: int, j: int| 0 <= i < j < pins.len() ==> pins[i].0 != pins[j].0
}

/// The pin with the name stands at `i`.
pub open spec fn pinned_at(pins: Seq<PinView>, name: Seq<u8>, i: int) -> bool {
    0 <= i < pins.len() && pins[i].0 == name
}

/// The pins after `name` was set to `id`: a pin of that name is
/// overwritten, else the pin is added at the end.
pub open spec fn after_pin(pins: Seq<PinView>, name: Seq<u8>, id: u128) -> Seq<PinView> {
    if exists|i: int| pinned_at(pins, name, i) {
        pins.update(choose|i: int| pinned_at(pins, name, i), (name, id))
    } else {
        pins.push((name, id))
    }
}

/// The pins after the pin of that name was removed, if there was one.
pub open spec fn after_unpin(pins: Seq<PinView>, name: Seq<u8>) -> Seq<PinView> {
    if exists|i: int| pinned_at(pins, name, i) {
        pins.remove(choose|i: int| pinned_at(pins, name, i))
    } else {
        pins
    }
}

/// The pins of a repository, each name once.
pub struct PinStore {
    pub pins: Vec<Pin>,
}

impl View for PinStore {
    type V = Seq<PinView>;

    open spec fn view(&self) -> Seq<PinView> {
        pins_view(self.pins@)
    }
}

impl PinStore {
    /// The store's invariant: names are unique.
    pub open spec fn wf(&self) -> bool {
        distinct_names(self@)
    }

    /// A store without pins.
    pub fn new() -> (s: Self)
        ensures
            s.wf(),
            s@.len() == 0,
    {
        PinStore { pins: Vec::new() }
    }

    /// Where the pin with the name stands.
    pub fn position(&self, name: &str) -> (r: Option<usize>)
        ensures
            match r {
                Some(i) => pinned_at(self@, text_bytes(name@), i as int),
                None => !exists|i: int| pinned_at(self@, text_bytes(name@), i),
            },
    {
        let n = self.pins.len();
        let mut i: usize = 0;
        while i < n
            invariant
                n == self.pins@.len(),
                i <= n,
                forall|k: int| 0 <= k < i ==> self@[k].0 != text_bytes(name@),
            decreases n - i,
        {
            assert(self@[i as int] == (text_bytes(self.pins@[i as int].name@), self.pins@[i as int].id));
            if same_bytes(self.pins[i].name.as_str().as_bytes(), name.as_bytes()) {
                return Some(i);
            }
            i = i + 1;
        }
        None
    }

    /// The checkpoint that the name is pinned to.
    pub fn get(&self, name: &str) -> (r: Option<u128>)
        ensures
            match r {
                Some(id) => exists|i: int| pinned_at(self@, text_bytes(name@), i) && self@[i].1 == id,
                None => !exists|i: int| pinned_at(self@, text_bytes(name@), i),
            },
    {
        match self.position(name) {
            Some(i) => {
                assert(self@[i as int] == (text_bytes(self.pins@[i as int].name@), self.pins@[i as int].id));
                Some(self.pins[i].id)
            },
            None => None,
        }
    }

    /// Pins the name to the checkpoint. A pin of that name is overwritten.
    pub fn pin(&mut self, name: &str, id: u128)
        requires
            old(self).wf(),
        ensures
            final(self).wf(),
            final(self)@ == after_pin(old(self)@, text_bytes(name@), id),
    {
        let ghost before = self@;
        let ghost key = text_bytes(name@);
        let entry = Pin { name: name.to_owned(), id };
        match self.position(name) {
            Some(i) => {
                self.pins.remove(i);
                self.pins.insert(i, entry);
                proof {
                    let c = choose|c: int| pinned_at(before, key, c);
                    if c < i {
                        assert(before[c].0 != before[i as int].0);
                    }
                    if i < c {
                        assert(before[i as int].0 != before[c].0);
                    }
                    assert(self@ =~= before.update(i as int, (key, id)));
                    assert forall|a: int, b: int| 0 <= a < b < self@.len() implies self@[a].0
                        != self@[b].0 by {
                        assert(self@[a].0 == before[a].0 && self@[b].0 == before[b].0);
                    }
                }
            },
            None => {
                self.pins.push(entry);
                proof {
                    assert(self@ =~= before.push((key, id)));
                    assert forall|a: int, b: int| 0 <= a < b < self@.len() implies self@[a].0
                        != self@[b].0 by {
                        assert(self@[a] == before[a]);
                        if b < before.len() {
                            assert(self@[b] == before[b]);
                        } else {
                            assert(!pinned_at(before, key, a));
                        }
                    }
                }
            },
        }
    }

    /// Removes the pin of that name. Returns whether there was one.
    pub fn unpin(&mut self, name: &str) -> (found: bool)
        requires
            old(self).wf(),
        ensures
            final(self).wf(),
            found == exists|i: int| pinned_at(old(self)@, text_bytes(name@), i),
            final(self)@ == after_unpin(old(self)@, text_bytes(name@)),
    {
        let ghost before = self@;
        let ghost key = text_bytes(name@);
        match self.position(name) {
            None => false,
            Some(i) => {
                self.pins.remove(i);
                proof {
                    let c = choose|c: int| pinned_at(before, key, c);
                    if c < i {
                        assert(before[c].0 != before[i as int].0);
                    }
                    if i < c {
                        assert(before[i as int].0 != before[c].0);
                    }
                    assert(self@ =~= before.remove(i as int));
                    assert forall|a: int, b: int| 0 <= a < b < self@.len() implies self@[a].0
                        != self@[b].0 by {
                        let oa = if a < i { a } else { a + 1 };
                        let ob = if b < i { b } else { b + 1 };
                        assert(self@[a] == before[oa] && self@[b] == before[ob]);
                    }
                }
                true
            },
        }
    }

    /// The checkpoints that are pinned, in the order of the pins.
    pub fn pinned_ids(&self) -> (ids: Vec<u128>)
        ensures
            ids@.len() == self@.len(),
            forall|i: int| 0 <= i < ids@.len() ==> ids@[i] == self@[i].1,
    {
        let n = self.pins.len();
        let mut ids: Vec<u128> = Vec::with_capacity(n);
        let mut i: usize = 0;
        while i < n
            invariant
                n == self.pins@.len(),
                i <= n,
                ids@.len() == i,
                forall|k: int| 0 <= k < i ==> ids@[k] == self@[k].1,
            decreases n - i,
        {
            ids.push(self.pins[i].id);
            i = i + 1;
        }
        ids
    }
}

} // verus!
