//! The operations of the map as they run beside each other: each is an agent that asks for one
//! atomic action on the shared memory at a time, and goes on with what the action gave back.
use crate::chunks::reservation_target;
#[allow(unused_imports)]
use crate::chunks::{max_capacity, slots_needed};
#[allow(unused_imports)]
use crate::head::{
    head_index, head_tag, lemma_next_tag, lemma_packed_head, next_tag, pack_free_head, packed_head,
    unpack_free_head, SENTINEL,
};
use crate::location::{get_location, last_chunk};
#[allow(unused_imports)]
use crate::location::chunk_of;
#[allow(unused_imports)]
use crate::slot::{next_version, occupied, MAX_REFCOUNT};
#[allow(unused_imports)]
use crate::util::{odd_version_of, KeyData, KeyDataRead};
#[allow(unused_imports)]
use vstd::prelude::*;

verus! {

broadcast use {lemma_packed_head, lemma_next_tag};

/// What an agent that frees a slot does afterwards.
#[derive(Clone, Copy, Debug, PartialEq, Eq, Structural)]
pub enum After {
    /// Ends an insertion whose value was refused.
    Refuse,
    /// Ends a removal.
    Remove,
    /// Ends a lookup that found another version.
    Lookup,
    /// Ends the release of a guard.
    Release,
}

/// Why a key is looked up.
#[derive(Clone, Copy, Debug, PartialEq, Eq, Structural)]
pub enum Lookup {
    /// To take a guard.
    Get,
    /// To remove the key.
    Remove,
    /// To know whether the key is there.
    Contains,
    /// To take a guard under whatever key the slot has.
    Scan,
}

/// How far an operation has come.
#[derive(Clone, Copy, Debug, PartialEq, Eq, Structural)]
pub enum Agent {
    /// An insertion is about to read the head of the free list.
    PopLoad,
    /// It has read a head that is a slot.
    PopNext { head: u64 },
    /// It has read the link of that slot.
    PopCas { head: u64, next: u32 },
    /// It found the free list empty.
    GrowLen,
    /// It has taken a fresh index, whose chunk may be missing.
    ChunkLoad { idx: u32 },
    /// It found the chunk missing.
    ChunkInstall { idx: u32 },
    /// It has taken a free slot.
    VersionLoad { idx: u32 },
    /// It owns a slot, and the caller is to supply the value.
    Claimed { idx: u32, version: u32 },
    /// It has the value.
    DataWrite { idx: u32, version: u32 },
    /// It has written the value.
    RefStore { idx: u32, version: u32 },
    /// It has set the reference count.
    VersionStore { idx: u32, version: u32 },
    /// It has set the version: the key is in the map.
    NumAdd { idx: u32, version: u32 },
    /// A slot without referents is to go on the free list.
    FreeLoad { idx: u32, after: After },
    /// The head of the free list was read.
    FreeLink { idx: u32, head: u64, after: After },
    /// The slot was linked to that head.
    FreeCas { idx: u32, head: u64, after: After },
    /// A lookup is about to compare the index with the length.
    Locate { lookup: Lookup, idx: u32, version: u32 },
    /// The index is in range, and its chunk may be missing still.
    Await { lookup: Lookup, idx: u32, version: u32 },
    /// A removal is about to read the version.
    RemoveLoad { idx: u32, version: u32 },
    /// It read the version it looks for.
    RemoveCas { idx: u32, version: u32 },
    /// A lookup is about to read the reference count.
    RefLoad { idx: u32, version: u32 },
    /// It read a count that is not zero.
    RefCas { idx: u32, version: u32, count: u32 },
    /// It holds a reference.
    RefCheck { idx: u32, version: u32 },
    /// A lookup is about to read the version.
    ContainsLoad { idx: u32, version: u32 },
    /// A scan is about to read the version.
    ScanLoad { idx: u32 },
    /// A reference is to be given back.
    RefDrop { idx: u32, after: After },
    /// It was the last one, so the value is to be dropped.
    ValueDrop { idx: u32, after: After },
    /// A guard is to be cloned.
    CloneAdd { idx: u32 },
    /// A removal is about to count itself.
    NumSub,
    /// A reservation is about to read the length.
    ReserveLen { additional: usize },
    /// It has counted the slots before `next` that somebody refers to, and looks whether the chunk of
    /// `next` is there.
    ReserveScan { next: u32, len: u32, in_use: u32, additional: usize },
    /// The chunk is there.
    ReserveCount { next: u32, len: u32, in_use: u32, additional: usize },
    /// A reservation has made the chunks before this one.
    ReserveLoad { chunk: usize, last: usize },
    /// It found this chunk missing.
    ReserveInstall { chunk: usize, last: usize },
    /// The insertion is done, under this key.
    Inserted { idx: u32, version: u32 },
    /// The value was refused, and the slot is free again.
    Refused,
    /// The removal is done.
    Removed { found: bool },
    /// The lookup gave a guard.
    Guarding { idx: u32, version: u32 },
    /// The lookup gave no guard.
    Missing,
    /// The lookup is done.
    Contained { found: bool },
    /// The scan has come to the end.
    Exhausted,
    /// The guard was given back.
    Released,
    /// The guard was cloned.
    Cloned,
    /// All chunks of the reservation are there.
    Reserved,
    /// Too many references: the operation cannot go on.
    Overflowed,
    /// The reservation asked for more room than there can be.
    TooLarge,
}

/// One atomic action on the shared memory.
#[derive(Clone, Copy, Debug, PartialEq, Eq, Structural)]
pub enum Action {
    /// Read the head of the free list.
    LoadHead,
    /// Read the link of a slot.
    LoadNext { idx: u32 },
    /// Exchange the head of the free list for what follows it. May fail for no reason.
    PopHead { old_head: u64, new_head: u64 },
    /// Increment the length of the vector.
    FetchAddLen,
    /// Look whether a chunk is there.
    LoadChunk { chunk: usize },
    /// Put a chunk of zeroed slots in place, unless there is one.
    InstallChunk { chunk: usize },
    /// Read the version of a slot.
    LoadVersion { idx: u32 },
    /// Ask the caller for the value. Touches no memory.
    AskValue,
    /// Write the value into a slot.
    WriteData { idx: u32 },
    /// Set the reference count of a slot to one.
    StoreRef { idx: u32 },
    /// Set the version of a slot.
    StoreVersion { idx: u32, version: u32 },
    /// Increment the counter of elements.
    AddNum,
    /// Set the link of a slot.
    StoreNext { idx: u32, next: u32 },
    /// Exchange the head of the free list for a slot that links to it. May fail for no reason.
    PushHead { old_head: u64, new_head: u64, idx: u32 },
    /// Read the length of the vector.
    LoadLen,
    /// Exchange the version of a slot.
    CasVersion { idx: u32, old_version: u32, new_version: u32 },
    /// Read the reference count of a slot.
    LoadRef { idx: u32 },
    /// Exchange the reference count of a slot. May fail for no reason.
    CasRef { idx: u32, old_count: u32, new_count: u32 },
    /// Increment the reference count of a slot.
    FetchAddRef { idx: u32 },
    /// Decrement the reference count of a slot.
    FetchSubRef { idx: u32 },
    /// Drop the value in a slot.
    DropData { idx: u32 },
    /// Decrement the counter of elements.
    SubNum,
    /// Nothing: the operation is over.
    Stop,
}

/// What an action gave back.
#[derive(Clone, Copy, Debug, PartialEq, Eq, Structural)]
pub enum Event {
    /// The head of the free list as it was.
    Head { head: u64 },
    /// Another word as it was.
    Word { word: u32 },
    /// The exchange took place.
    Swapped,
    /// The chunk is there.
    Present,
    /// The chunk is missing.
    Absent,
    /// The action has no result.
    Done,
    /// The caller supplies a value.
    Value,
    /// The caller refuses.
    Refusal,
}

/// An insertion that read this head.
pub open spec fn popping(head: u64) -> Agent {
    if head_index(head) == SENTINEL {
        Agent::GrowLen
    } else {
        Agent::PopNext { head }
    }
}

/// A lookup that read this reference count.
pub open spec fn counting(idx: u32, version: u32, count: u32) -> Agent {
    if count > MAX_REFCOUNT {
        Agent::Overflowed
    } else if count == 0 {
        Agent::Missing
    } else {
        Agent::RefCas { idx, version, count }
    }
}

/// A clone that was counted beside so many references. Beyond the cap nobody gets the reference, and it
/// is never given back.
pub open spec fn cloning(count: u32) -> Agent {
    if count > MAX_REFCOUNT {
        Agent::Overflowed
    } else {
        Agent::Cloned
    }
}

/// A removal that read a version.
pub open spec fn removing(idx: u32, version: u32, current: u32) -> Agent {
    if current == version {
        Agent::RemoveCas { idx, version }
    } else {
        Agent::Removed { found: false }
    }
}

/// Where an agent goes on once its slot is free or not to be freed by it.
pub open spec fn finishing(after: After) -> Agent {
    match after {
        After::Refuse => Agent::Refused,
        After::Remove => Agent::NumSub,
        After::Lookup => Agent::Missing,
        After::Release => Agent::Released,
    }
}

/// A lookup whose slot exists.
pub open spec fn looking(lookup: Lookup, idx: u32, version: u32) -> Agent {
    match lookup {
        Lookup::Get => Agent::RefLoad { idx, version },
        Lookup::Remove => Agent::RemoveLoad { idx, version },
        Lookup::Contains => Agent::ContainsLoad { idx, version },
        Lookup::Scan => Agent::ScanLoad { idx },
    }
}

/// A scan that read a version. An even one belongs to no key.
pub open spec fn scanning(idx: u32, version: u32) -> Agent {
    if occupied(version) {
        Agent::Locate { lookup: Lookup::Get, idx, version }
    } else {
        Agent::Missing
    }
}

/// A reservation that has counted the slots before one of them.
pub open spec fn scanned(next: u32, len: u32, in_use: u32, additional: usize) -> Agent {
    if next < len {
        Agent::ReserveScan { next, len, in_use, additional }
    } else {
        planned(len, in_use, additional)
    }
}

/// A reservation that has counted all slots.
pub open spec fn planned(len: u32, in_use: u32, additional: usize) -> Agent {
    let target = slots_needed(len as nat, in_use as nat, additional as nat);
    if target > max_capacity() {
        Agent::TooLarge
    } else if target == 0 {
        Agent::Reserved
    } else {
        Agent::ReserveLoad { chunk: 0, last: chunk_of(target - 1) as usize }
    }
}

/// The number after a number: the counter wraps.
pub open spec fn next_word(word: u32) -> u32 {
    ((word + 1) % 0x1_0000_0000) as u32
}

/// A reservation that is through with a chunk.
pub open spec fn reserving(chunk: usize, last: usize) -> Agent {
    if chunk < last {
        Agent::ReserveLoad { chunk: (chunk + 1) as usize, last }
    } else {
        Agent::Reserved
    }
}

/// A lookup whose index is out of range.
pub open spec fn missing(lookup: Lookup) -> Agent {
    match lookup {
        Lookup::Get => Agent::Missing,
        Lookup::Remove => Agent::Removed { found: false },
        Lookup::Contains => Agent::Contained { found: false },
        Lookup::Scan => Agent::Exhausted,
    }
}

impl Agent {
    /// The action that the agent asks for.
    pub open spec fn wants(self) -> Action {
        match self {
            Agent::PopLoad => Action::LoadHead,
            Agent::PopNext { head } => Action::LoadNext { idx: head_index(head) },
            Agent::PopCas { head, next } => Action::PopHead {
                old_head: head,
                new_head: packed_head(next_tag(head_tag(head)), next),
            },
            Agent::GrowLen => Action::FetchAddLen,
            Agent::ChunkLoad { idx } => Action::LoadChunk { chunk: chunk_of(idx as int) as usize },
            Agent::ChunkInstall { idx } => Action::InstallChunk {
                chunk: chunk_of(idx as int) as usize,
            },
            Agent::VersionLoad { idx } => Action::LoadVersion { idx },
            Agent::Claimed { .. } => Action::AskValue,
            Agent::DataWrite { idx, version: _ } => Action::WriteData { idx },
            Agent::RefStore { idx, version: _ } => Action::StoreRef { idx },
            Agent::VersionStore { idx, version } => Action::StoreVersion {
                idx,
                version: odd_version_of(version),
            },
            Agent::NumAdd { .. } => Action::AddNum,
            Agent::FreeLoad { .. } => Action::LoadHead,
            Agent::FreeLink { idx, head, after: _ } => Action::StoreNext {
                idx,
                next: head_index(head),
            },
            Agent::FreeCas { idx, head, after: _ } => Action::PushHead {
                old_head: head,
                new_head: packed_head(next_tag(head_tag(head)), idx),
                idx,
            },
            Agent::Locate { .. } => Action::LoadLen,
            Agent::Await { lookup: _, idx, version: _ } => Action::LoadChunk {
                chunk: chunk_of(idx as int) as usize,
            },
            Agent::RemoveLoad { idx, version: _ } => Action::LoadVersion { idx },
            Agent::RemoveCas { idx, version } => Action::CasVersion {
                idx,
                old_version: version,
                new_version: next_version(version),
            },
            Agent::RefLoad { idx, version: _ } => Action::LoadRef { idx },
            Agent::RefCas { idx, version: _, count } => Action::CasRef {
                idx,
                old_count: count,
                new_count: ((count + 1) % 0x1_0000_0000) as u32,
            },
            Agent::RefCheck { idx, version: _ } => Action::LoadVersion { idx },
            Agent::ContainsLoad { idx, version: _ } => Action::LoadVersion { idx },
            Agent::ScanLoad { idx } => Action::LoadVersion { idx },
            Agent::RefDrop { idx, after: _ } => Action::FetchSubRef { idx },
            Agent::ValueDrop { idx, after: _ } => Action::DropData { idx },
            Agent::CloneAdd { idx } => Action::FetchAddRef { idx },
            Agent::NumSub => Action::SubNum,
            Agent::ReserveLen { .. } => Action::LoadLen,
            Agent::ReserveScan { next, len: _, in_use: _, additional: _ } => Action::LoadChunk {
                chunk: chunk_of(next as int) as usize,
            },
            Agent::ReserveCount { next, len: _, in_use: _, additional: _ } => Action::LoadRef {
                idx: next,
            },
            Agent::ReserveLoad { chunk, last: _ } => Action::LoadChunk { chunk },
            Agent::ReserveInstall { chunk, last: _ } => Action::InstallChunk { chunk },
            _ => Action::Stop,
        }
    }

    /// Where the agent goes on. An event that does not answer its action changes nothing.
    pub open spec fn after(self, event: Event) -> Agent {
        match (self, event) {
            (Agent::PopLoad, Event::Head { head }) => popping(head),
            (Agent::PopNext { head }, Event::Word { word }) => Agent::PopCas { head, next: word },
            (Agent::PopCas { head, next: _ }, Event::Swapped) => Agent::VersionLoad {
                idx: head_index(head),
            },
            (Agent::PopCas { .. }, Event::Head { head }) => popping(head),
            (Agent::GrowLen, Event::Word { word }) => Agent::ChunkLoad { idx: word },
            (Agent::ChunkLoad { idx }, Event::Present) => Agent::Claimed { idx, version: 0 },
            (Agent::ChunkLoad { idx }, Event::Absent) => Agent::ChunkInstall { idx },
            (Agent::ChunkInstall { idx }, Event::Swapped) => Agent::Claimed { idx, version: 0 },
            (Agent::ChunkInstall { idx }, Event::Present) => Agent::Claimed { idx, version: 0 },
            (Agent::VersionLoad { idx }, Event::Word { word }) => Agent::Claimed {
                idx,
                version: word,
            },
            (Agent::Claimed { idx, version }, Event::Value) => Agent::DataWrite { idx, version },
            (Agent::Claimed { idx, version: _ }, Event::Refusal) => Agent::FreeLoad {
                idx,
                after: After::Refuse,
            },
            (Agent::DataWrite { idx, version }, Event::Done) => Agent::RefStore { idx, version },
            (Agent::RefStore { idx, version }, Event::Done) => Agent::VersionStore {
                idx,
                version,
            },
            (Agent::VersionStore { idx, version }, Event::Done) => Agent::NumAdd {
                idx,
                version: odd_version_of(version),
            },
            (Agent::NumAdd { idx, version }, Event::Done) => Agent::Inserted { idx, version },
            (Agent::FreeLoad { idx, after }, Event::Head { head }) => Agent::FreeLink {
                idx,
                head,
                after,
            },
            (Agent::FreeLink { idx, head, after }, Event::Done) => Agent::FreeCas {
                idx,
                head,
                after,
            },
            (Agent::FreeCas { idx: _, head: _, after }, Event::Swapped) => finishing(after),
            (Agent::FreeCas { idx, head: _, after }, Event::Head { head }) => Agent::FreeLink {
                idx,
                head,
                after,
            },
            (Agent::Locate { lookup, idx, version }, Event::Word { word }) => if idx < word {
                Agent::Await { lookup, idx, version }
            } else {
                missing(lookup)
            },
            (Agent::Await { lookup, idx, version }, Event::Present) => looking(
                lookup,
                idx,
                version,
            ),
            (Agent::RemoveLoad { idx, version }, Event::Word { word }) => removing(
                idx,
                version,
                word,
            ),
            (Agent::RemoveCas { idx, version: _ }, Event::Swapped) => Agent::RefDrop {
                idx,
                after: After::Remove,
            },
            (Agent::RemoveCas { idx, version }, Event::Word { word }) => removing(
                idx,
                version,
                word,
            ),
            (Agent::RefLoad { idx, version }, Event::Word { word }) => counting(
                idx,
                version,
                word,
            ),
            (Agent::RefCas { idx, version, count: _ }, Event::Swapped) => Agent::RefCheck {
                idx,
                version,
            },
            (Agent::RefCas { idx, version, count: _ }, Event::Word { word }) => counting(
                idx,
                version,
                word,
            ),
            (Agent::RefCheck { idx, version }, Event::Word { word }) => if word == version {
                Agent::Guarding { idx, version }
            } else {
                Agent::RefDrop { idx, after: After::Lookup }
            },
            (Agent::ContainsLoad { idx: _, version }, Event::Word { word }) => Agent::Contained {
                found: word == version,
            },
            (Agent::RefDrop { idx, after }, Event::Word { word }) => if word == 1 {
                Agent::ValueDrop { idx, after }
            } else {
                finishing(after)
            },
            (Agent::ValueDrop { idx, after }, Event::Done) => Agent::FreeLoad { idx, after },
            (Agent::CloneAdd { idx: _ }, Event::Word { word }) => cloning(word),
            (Agent::NumSub, Event::Done) => Agent::Removed { found: true },
            (Agent::ScanLoad { idx }, Event::Word { word }) => scanning(idx, word),
            (Agent::ReserveLen { additional }, Event::Word { word }) => scanned(
                0,
                word,
                0,
                additional,
            ),
            (Agent::ReserveScan { next, len, in_use, additional }, Event::Present) =>
                Agent::ReserveCount { next, len, in_use, additional },
            (Agent::ReserveScan { next, len, in_use, additional }, Event::Absent) => scanned(
                next_word(next),
                len,
                in_use,
                additional,
            ),
            (Agent::ReserveCount { next, len, in_use, additional }, Event::Word { word }) => scanned(
                next_word(next),
                len,
                if word > 0 {
                    next_word(in_use)
                } else {
                    in_use
                },
                additional,
            ),
            (Agent::ReserveLoad { chunk, last }, Event::Present) => reserving(chunk, last),
            (Agent::ReserveLoad { chunk, last }, Event::Absent) => Agent::ReserveInstall {
                chunk,
                last,
            },
            (Agent::ReserveInstall { chunk, last }, Event::Swapped) => reserving(chunk, last),
            (Agent::ReserveInstall { chunk, last }, Event::Present) => reserving(chunk, last),
            _ => self,
        }
    }

    /// An insertion.
    pub fn insert() -> (agent: Agent)
        ensures
            agent == Agent::PopLoad,
    {
        Agent::PopLoad
    }

    /// A lookup of a key.
    pub fn lookup(lookup: Lookup, key: KeyData) -> (agent: Agent)
        ensures
            agent == (Agent::Locate { lookup, idx: key@.idx, version: key@.version }),
            occupied(key@.version),
    {
        Agent::Locate { lookup, idx: key.idx(), version: key.version() }
    }

    /// A look at whatever key slot `idx` has.
    pub fn scan(idx: u32) -> (agent: Agent)
        ensures
            agent == (Agent::Locate { lookup: Lookup::Scan, idx, version: 1 }),
    {
        Agent::Locate { lookup: Lookup::Scan, idx, version: 1 }
    }

    /// A reservation of room for `additional` more elements.
    pub fn reserve(additional: usize) -> (agent: Agent)
        ensures
            agent == (Agent::ReserveLen { additional }),
    {
        Agent::ReserveLen { additional }
    }

    /// The release of a guard of a key.
    pub fn release(key: KeyData) -> (agent: Agent)
        ensures
            agent == (Agent::RefDrop { idx: key@.idx, after: After::Release }),
    {
        Agent::RefDrop { idx: key.idx(), after: After::Release }
    }

    /// A clone of a guard of a key.
    pub fn clone_guard(key: KeyData) -> (agent: Agent)
        ensures
            agent == (Agent::CloneAdd { idx: key@.idx }),
    {
        Agent::CloneAdd { idx: key.idx() }
    }

    /// The action that the agent asks for next.
    pub fn action(&self) -> (action: Action)
        ensures
            action == self.wants(),
    {
        match *self {
            Agent::PopLoad => Action::LoadHead,
            Agent::PopNext { head } => {
                let (_, idx) = unpack_free_head(head);
                Action::LoadNext { idx }
            },
            Agent::PopCas { head, next } => {
                // The tag is incremented, so that a head that left and came back is not taken
                // for the one that was read.
                let (tag, _) = unpack_free_head(head);
                Action::PopHead {
                    old_head: head,
                    new_head: pack_free_head(tag.wrapping_add(1), next),
                }
            },
            Agent::GrowLen => Action::FetchAddLen,
            Agent::ChunkLoad { idx } => {
                let (chunk, _) = get_location(idx);
                Action::LoadChunk { chunk }
            },
            Agent::ChunkInstall { idx } => {
                let (chunk, _) = get_location(idx);
                Action::InstallChunk { chunk }
            },
            Agent::VersionLoad { idx } => Action::LoadVersion { idx },
            Agent::Claimed { .. } => Action::AskValue,
            Agent::DataWrite { idx, version: _ } => Action::WriteData { idx },
            Agent::RefStore { idx, version: _ } => Action::StoreRef { idx },
            Agent::VersionStore { idx, version } => {
                let key = KeyData::new(idx, version);
                Action::StoreVersion { idx, version: key.version() }
            },
            Agent::NumAdd { .. } => Action::AddNum,
            Agent::FreeLoad { .. } => Action::LoadHead,
            Agent::FreeLink { idx, head, after: _ } => {
                let (_, next) = unpack_free_head(head);
                Action::StoreNext { idx, next }
            },
            Agent::FreeCas { idx, head, after: _ } => {
                let (tag, _) = unpack_free_head(head);
                Action::PushHead {
                    old_head: head,
                    new_head: pack_free_head(tag.wrapping_add(1), idx),
                    idx,
                }
            },
            Agent::Locate { .. } => Action::LoadLen,
            Agent::Await { lookup: _, idx, version: _ } => {
                let (chunk, _) = get_location(idx);
                Action::LoadChunk { chunk }
            },
            Agent::RemoveLoad { idx, version: _ } => Action::LoadVersion { idx },
            Agent::RemoveCas { idx, version } => Action::CasVersion {
                idx,
                old_version: version,
                new_version: version.wrapping_add(1),
            },
            Agent::RefLoad { idx, version: _ } => Action::LoadRef { idx },
            Agent::RefCas { idx, version: _, count } => Action::CasRef {
                idx,
                old_count: count,
                new_count: count.wrapping_add(1),
            },
            Agent::RefCheck { idx, version: _ } => Action::LoadVersion { idx },
            Agent::ContainsLoad { idx, version: _ } => Action::LoadVersion { idx },
            Agent::ScanLoad { idx } => Action::LoadVersion { idx },
            Agent::RefDrop { idx, after: _ } => Action::FetchSubRef { idx },
            Agent::ValueDrop { idx, after: _ } => Action::DropData { idx },
            Agent::CloneAdd { idx } => Action::FetchAddRef { idx },
            Agent::NumSub => Action::SubNum,
            Agent::ReserveLen { .. } => Action::LoadLen,
            Agent::ReserveScan { next, len: _, in_use: _, additional: _ } => {
                let (chunk, _) = get_location(next);
                Action::LoadChunk { chunk }
            },
            Agent::ReserveCount { next, len: _, in_use: _, additional: _ } => Action::LoadRef {
                idx: next,
            },
            Agent::ReserveLoad { chunk, last: _ } => Action::LoadChunk { chunk },
            Agent::ReserveInstall { chunk, last: _ } => Action::InstallChunk { chunk },
            _ => Action::Stop,
        }
    }

    /// An insertion goes on from a head that it read.
    fn pop_from(head: u64) -> (agent: Agent)
        ensures
            agent == popping(head),
    {
        let (_, idx) = unpack_free_head(head);
        if idx == SENTINEL {
            Agent::GrowLen
        } else {
            Agent::PopNext { head }
        }
    }

    /// A lookup goes on from a reference count that it read.
    fn count_from(idx: u32, version: u32, count: u32) -> (agent: Agent)
        ensures
            agent == counting(idx, version, count),
    {
        if count > MAX_REFCOUNT {
            Agent::Overflowed
        } else if count == 0 {
            // A count of zero stays there until the slot is used again: whoever brought it to
            // zero drops the value.
            Agent::Missing
        } else {
            Agent::RefCas { idx, version, count }
        }
    }

    /// A clone goes on from the reference count that it found.
    fn clone_from_count(count: u32) -> (agent: Agent)
        ensures
            agent == cloning(count),
    {
        if count > MAX_REFCOUNT {
            Agent::Overflowed
        } else {
            Agent::Cloned
        }
    }

    /// A removal goes on from a version that it read.
    fn remove_from(idx: u32, version: u32, current: u32) -> (agent: Agent)
        ensures
            agent == removing(idx, version, current),
    {
        if current == version {
            Agent::RemoveCas { idx, version }
        } else {
            Agent::Removed { found: false }
        }
    }

    /// An agent goes on once it has nothing to do with its slot any more.
    fn finish(after: After) -> (agent: Agent)
        ensures
            agent == finishing(after),
    {
        match after {
            After::Refuse => Agent::Refused,
            After::Remove => Agent::NumSub,
            After::Lookup => Agent::Missing,
            After::Release => Agent::Released,
        }
    }

    /// A lookup compares its index with the length.
    fn locate(lookup: Lookup, idx: u32, version: u32, len: u32) -> (agent: Agent)
        ensures
            agent == (if idx < len {
                Agent::Await { lookup, idx, version }
            } else {
                missing(lookup)
            }),
    {
        if idx < len {
            Agent::Await { lookup, idx, version }
        } else {
            match lookup {
                Lookup::Get => Agent::Missing,
                Lookup::Remove => Agent::Removed { found: false },
                Lookup::Contains => Agent::Contained { found: false },
                Lookup::Scan => Agent::Exhausted,
            }
        }
    }

    /// A lookup goes on once the chunk of its index is there.
    fn look(lookup: Lookup, idx: u32, version: u32) -> (agent: Agent)
        ensures
            agent == looking(lookup, idx, version),
    {
        match lookup {
            Lookup::Get => Agent::RefLoad { idx, version },
            Lookup::Remove => Agent::RemoveLoad { idx, version },
            Lookup::Contains => Agent::ContainsLoad { idx, version },
            Lookup::Scan => Agent::ScanLoad { idx },
        }
    }

    /// A scan goes on from a version that it read.
    fn scan_from(idx: u32, version: u32) -> (agent: Agent)
        ensures
            agent == scanning(idx, version),
    {
        if version % 2 != 0 {
            Agent::Locate { lookup: Lookup::Get, idx, version }
        } else {
            Agent::Missing
        }
    }

    /// A reservation goes on to the next slot, or to the chunks once it has counted all.
    fn scan_on(next: u32, len: u32, in_use: u32, additional: usize) -> (agent: Agent)
        ensures
            agent == scanned(next, len, in_use, additional),
    {
        if next < len {
            return Agent::ReserveScan { next, len, in_use, additional };
        }
        match reservation_target(len, in_use as usize, additional) {
            None => Agent::TooLarge,
            Some(target) => if target == 0 {
                Agent::Reserved
            } else {
                Agent::ReserveLoad { chunk: 0, last: last_chunk(target) }
            },
        }
    }

    /// A reservation goes on to the next chunk.
    fn reserve_from(chunk: usize, last: usize) -> (agent: Agent)
        ensures
            agent == reserving(chunk, last),
    {
        if chunk < last {
            Agent::ReserveLoad { chunk: chunk + 1, last }
        } else {
            Agent::Reserved
        }
    }

    /// Goes on with what the action gave back.
    pub fn resume(&self, event: Event) -> (agent: Agent)
        ensures
            agent == self.after(event),
    {
        match (*self, event) {
            (Agent::PopLoad, Event::Head { head }) => Self::pop_from(head),
            (Agent::PopNext { head }, Event::Word { word }) => Agent::PopCas { head, next: word },
            (Agent::PopCas { head, next: _ }, Event::Swapped) => {
                let (_, idx) = unpack_free_head(head);
                Agent::VersionLoad { idx }
            },
            (Agent::PopCas { .. }, Event::Head { head }) => Self::pop_from(head),
            (Agent::GrowLen, Event::Word { word }) => Agent::ChunkLoad { idx: word },
            (Agent::ChunkLoad { idx }, Event::Present) => Agent::Claimed { idx, version: 0 },
            (Agent::ChunkLoad { idx }, Event::Absent) => Agent::ChunkInstall { idx },
            (Agent::ChunkInstall { idx }, Event::Swapped) => Agent::Claimed { idx, version: 0 },
            (Agent::ChunkInstall { idx }, Event::Present) => Agent::Claimed { idx, version: 0 },
            (Agent::VersionLoad { idx }, Event::Word { word }) => Agent::Claimed {
                idx,
                version: word,
            },
            (Agent::Claimed { idx, version }, Event::Value) => Agent::DataWrite { idx, version },
            (Agent::Claimed { idx, version: _ }, Event::Refusal) => Agent::FreeLoad {
                idx,
                after: After::Refuse,
            },
            (Agent::DataWrite { idx, version }, Event::Done) => Agent::RefStore { idx, version },
            (Agent::RefStore { idx, version }, Event::Done) => Agent::VersionStore {
                idx,
                version,
            },
            (Agent::VersionStore { idx, version }, Event::Done) => {
                let key = KeyData::new(idx, version);
                Agent::NumAdd { idx, version: key.version() }
            },
            (Agent::NumAdd { idx, version }, Event::Done) => Agent::Inserted { idx, version },
            (Agent::FreeLoad { idx, after }, Event::Head { head }) => Agent::FreeLink {
                idx,
                head,
                after,
            },
            (Agent::FreeLink { idx, head, after }, Event::Done) => Agent::FreeCas {
                idx,
                head,
                after,
            },
            (Agent::FreeCas { idx: _, head: _, after }, Event::Swapped) => Self::finish(after),
            (Agent::FreeCas { idx, head: _, after }, Event::Head { head }) => Agent::FreeLink {
                idx,
                head,
                after,
            },
            (Agent::Locate { lookup, idx, version }, Event::Word { word }) => Self::locate(
                lookup,
                idx,
                version,
                word,
            ),
            (Agent::Await { lookup, idx, version }, Event::Present) => Self::look(
                lookup,
                idx,
                version,
            ),
            (Agent::RemoveLoad { idx, version }, Event::Word { word }) => Self::remove_from(
                idx,
                version,
                word,
            ),
            (Agent::RemoveCas { idx, version: _ }, Event::Swapped) => Agent::RefDrop {
                idx,
                after: After::Remove,
            },
            (Agent::RemoveCas { idx, version }, Event::Word { word }) => Self::remove_from(
                idx,
                version,
                word,
            ),
            (Agent::RefLoad { idx, version }, Event::Word { word }) => Self::count_from(
                idx,
                version,
                word,
            ),
            (Agent::RefCas { idx, version, count: _ }, Event::Swapped) => Agent::RefCheck {
                idx,
                version,
            },
            (Agent::RefCas { idx, version, count: _ }, Event::Word { word }) => Self::count_from(
                idx,
                version,
                word,
            ),
            (Agent::RefCheck { idx, version }, Event::Word { word }) => if word == version {
                Agent::Guarding { idx, version }
            } else {
                Agent::RefDrop { idx, after: After::Lookup }
            },
            (Agent::ContainsLoad { idx: _, version }, Event::Word { word }) => Agent::Contained {
                found: word == version,
            },
            (Agent::RefDrop { idx, after }, Event::Word { word }) => if word == 1 {
                Agent::ValueDrop { idx, after }
            } else {
                Self::finish(after)
            },
            (Agent::ValueDrop { idx, after }, Event::Done) => Agent::FreeLoad { idx, after },
            (Agent::CloneAdd { idx: _ }, Event::Word { word }) => Self::clone_from_count(word),
            (Agent::NumSub, Event::Done) => Agent::Removed { found: true },
            (Agent::ScanLoad { idx }, Event::Word { word }) => Self::scan_from(idx, word),
            (Agent::ReserveLen { additional }, Event::Word { word }) => Self::scan_on(
                0,
                word,
                0,
                additional,
            ),
            (Agent::ReserveScan { next, len, in_use, additional }, Event::Present) =>
                Agent::ReserveCount { next, len, in_use, additional },
            (Agent::ReserveScan { next, len, in_use, additional }, Event::Absent) => Self::scan_on(
                next.wrapping_add(1),
                len,
                in_use,
                additional,
            ),
            (Agent::ReserveCount { next, len, in_use, additional }, Event::Word { word }) => {
                let counted: u32 = if word > 0 {
                    in_use.wrapping_add(1)
                } else {
                    in_use
                };
                Self::scan_on(next.wrapping_add(1), len, counted, additional)
            },
            (Agent::ReserveLoad { chunk, last }, Event::Present) => Self::reserve_from(chunk, last),
            (Agent::ReserveLoad { chunk, last }, Event::Absent) => Agent::ReserveInstall {
                chunk,
                last,
            },
            (Agent::ReserveInstall { chunk, last }, Event::Swapped) => Self::reserve_from(
                chunk,
                last,
            ),
            (Agent::ReserveInstall { chunk, last }, Event::Present) => Self::reserve_from(
                chunk,
                last,
            ),
            _ => *self,
        }
    }
}

} // verus!
