//! What an atomic action does to the memory of a map, and what it gives back.
#[allow(unused_imports)]
use crate::chunks::max_len;
#[allow(unused_imports)]
use crate::location::{chunk_of, chunk_start, CHUNKS};
#[allow(unused_imports)]
use crate::protocol::{Action, Event};
#[allow(unused_imports)]
use crate::slot::{zeroed_slot, Slot};
#[allow(unused_imports)]
use crate::state::State;
#[allow(unused_imports)]
use vstd::prelude::*;

verus! {

impl<V> State<V> {
    /// Whether slot `idx` exists and its chunk is there.
    pub open spec fn reachable(self, idx: u32) -> bool {
        idx < self.slots.len() && self.present[chunk_of(idx as int) as int]
    }

    /// Whether an action finds what it works on.
    pub open spec fn allows(self, action: Action) -> bool {
        match action {
            Action::LoadNext { idx } => self.reachable(idx),
            Action::FetchAddLen => self.slots.len() < max_len(),
            Action::LoadChunk { chunk } => chunk < CHUNKS,
            Action::InstallChunk { chunk } => chunk < CHUNKS && chunk_start((chunk + 1) as nat)
                <= usize::MAX,
            Action::LoadVersion { idx } => self.reachable(idx),
            Action::WriteData { idx } => self.reachable(idx),
            Action::StoreRef { idx } => self.reachable(idx),
            Action::StoreVersion { idx, version: _ } => self.reachable(idx),
            Action::StoreNext { idx, next: _ } => self.reachable(idx),
            Action::CasVersion { idx, old_version: _, new_version: _ } => self.reachable(idx),
            Action::LoadRef { idx } => self.reachable(idx),
            Action::CasRef { idx, old_count: _, new_count: _ } => self.reachable(idx),
            Action::FetchAddRef { idx } => self.reachable(idx),
            Action::FetchSubRef { idx } => self.reachable(idx),
            Action::DropData { idx } => self.reachable(idx),
            _ => true,
        }
    }

    /// What an action gives back. An exchange that may fail for no reason does so where `weak`
    /// says so. Asked for a value, the caller supplies one where `payload` has one.
    pub open spec fn event(self, action: Action, weak: bool, payload: Option<V>) -> Event {
        match action {
            Action::LoadHead => Event::Head { head: self.free_head },
            Action::LoadNext { idx } => Event::Word { word: self.slots[idx as int].next_free },
            Action::PopHead { old_head, new_head: _ } => if self.free_head == old_head && !weak {
                Event::Swapped
            } else {
                Event::Head { head: self.free_head }
            },
            Action::FetchAddLen => Event::Word { word: self.slots.len() as u32 },
            Action::LoadChunk { chunk } => if self.present[chunk as int] {
                Event::Present
            } else {
                Event::Absent
            },
            Action::InstallChunk { chunk } => if self.present[chunk as int] {
                Event::Present
            } else {
                Event::Swapped
            },
            Action::LoadVersion { idx } => Event::Word { word: self.slots[idx as int].version },
            Action::AskValue => if payload is Some {
                Event::Value
            } else {
                Event::Refusal
            },
            Action::PushHead { old_head, new_head: _, idx: _ } => if self.free_head == old_head
                && !weak {
                Event::Swapped
            } else {
                Event::Head { head: self.free_head }
            },
            Action::LoadLen => Event::Word { word: self.slots.len() as u32 },
            Action::CasVersion { idx, old_version, new_version: _ } => if self.slots[
                idx as int].version == old_version {
                Event::Swapped
            } else {
                Event::Word { word: self.slots[idx as int].version }
            },
            Action::LoadRef { idx } => Event::Word { word: self.slots[idx as int].ref_count },
            Action::CasRef { idx, old_count, new_count: _ } => if self.slots[
                idx as int].ref_count == old_count && !weak {
                Event::Swapped
            } else {
                Event::Word { word: self.slots[idx as int].ref_count }
            },
            Action::FetchAddRef { idx } => Event::Word { word: self.slots[idx as int].ref_count },
            Action::FetchSubRef { idx } => Event::Word { word: self.slots[idx as int].ref_count },
            _ => Event::Done,
        }
    }

    /// What an action leaves behind.
    pub open spec fn performed(self, action: Action, weak: bool, payload: Option<V>) -> Self {
        match action {
            Action::PopHead { old_head, new_head } => if self.free_head == old_head && !weak {
                State {
                    free_head: new_head,
                    free: self.free.subrange(1, self.free.len() as int),
                    ..self
                }
            } else {
                self
            },
            Action::FetchAddLen => State { slots: self.slots.push(zeroed_slot()), ..self },
            Action::InstallChunk { chunk } => State {
                present: self.present.update(chunk as int, true),
                ..self
            },
            Action::WriteData { idx } => self.with_slot(
                idx,
                Slot { data: payload, ..self.slots[idx as int] },
            ),
            Action::StoreRef { idx } => self.with_slot(
                idx,
                Slot { ref_count: 1, ..self.slots[idx as int] },
            ),
            Action::StoreVersion { idx, version } => self.with_slot(
                idx,
                Slot { version, ..self.slots[idx as int] },
            ),
            Action::AddNum => State {
                num_elems: ((self.num_elems + 1) % 0x1_0000_0000) as u32,
                ..self
            },
            Action::StoreNext { idx, next } => self.with_slot(
                idx,
                Slot { next_free: next, ..self.slots[idx as int] },
            ),
            Action::PushHead { old_head, new_head, idx } => if self.free_head == old_head
                && !weak {
                State { free_head: new_head, free: seq![idx] + self.free, ..self }
            } else {
                self
            },
            Action::CasVersion { idx, old_version, new_version } => if self.slots[
                idx as int].version == old_version {
                self.with_slot(idx, Slot { version: new_version, ..self.slots[idx as int] })
            } else {
                self
            },
            Action::CasRef { idx, old_count, new_count } => if self.slots[idx as int].ref_count
                == old_count && !weak {
                self.with_slot(idx, Slot { ref_count: new_count, ..self.slots[idx as int] })
            } else {
                self
            },
            Action::FetchAddRef { idx } => self.with_slot(
                idx,
                Slot {
                    ref_count: ((self.slots[idx as int].ref_count + 1) % 0x1_0000_0000) as u32,
                    ..self.slots[idx as int]
                },
            ),
            Action::FetchSubRef { idx } => self.with_slot(
                idx,
                Slot {
                    ref_count: ((self.slots[idx as int].ref_count + 0xffff_ffff)
                        % 0x1_0000_0000) as u32,
                    ..self.slots[idx as int]
                },
            ),
            Action::DropData { idx } => self.with_slot(
                idx,
                Slot { data: None, ..self.slots[idx as int] },
            ),
            Action::SubNum => State {
                num_elems: ((self.num_elems + 0xffff_ffff) % 0x1_0000_0000) as u32,
                ..self
            },
            _ => self,
        }
    }
}

} // verus!
