//! Keys: a slot index and the version under which a value was stored there.
#[allow(unused_imports)]
use vstd::prelude::*;

verus! {

/// What a key says: the slot it points to and the version it expects there.
#[verifier::ext_equal]
pub struct KeyView {
    pub idx: u32,
    pub version: u32,
}

/// The 64-bit form of a key: the version above the index.
pub open spec fn key_ffi(key: KeyView) -> u64 {
    (key.version * 0x1_0000_0000 + key.idx) as u64
}

/// The data inside a key. The version is always odd: only occupied slots have keys.
#[derive(Clone, Copy, Debug, PartialEq, Eq, Structural)]
pub struct KeyData {
    idx: u32,
    version: u32,
}

impl View for KeyData {
    type V = KeyView;

    closed spec fn view(&self) -> KeyView {
        KeyView { idx: self.idx, version: self.version }
    }
}

impl KeyData {
    #[verifier::type_invariant]
    pub closed spec fn odd_version(&self) -> bool {
        self.version % 2 == 1
    }
}

/// `slotmap::KeyData::from_ffi` followed by `slotmap::KeyData::as_ffi`: the first
/// sets the lowest bit of the version, which sits in the upper half of the word, and
/// keeps all other bits; the second writes the two halves back into one word.
#[verifier::external_body]
fn slotmap_key_word(value: u64) -> (word: u64)
    ensures
        word == (value | 0x1_0000_0000u64),
{
    slotmap::KeyData::from_ffi(value).as_ffi()
}

/// `slotmap::Key::null` of `slotmap::DefaultKey`, as a word: index `u32::MAX` and
/// version 1.
#[verifier::external_body]
fn slotmap_null_word() -> (word: u64)
    ensures
        word == 0x1_ffff_ffffu64,
{
    slotmap::Key::data(&<slotmap::DefaultKey as slotmap::Key>::null()).as_ffi()
}

/// `slotmap::Key::is_null` of the `slotmap::DefaultKey` with this word: true of the
/// keys whose index, in the lower half of the word, is `u32::MAX`.
#[verifier::external_body]
fn slotmap_word_is_null(value: u64) -> (null: bool)
    ensures
        null == (value % 0x1_0000_0000 == 0xffff_ffff),
{
    slotmap::Key::is_null(&slotmap::DefaultKey::from(slotmap::KeyData::from_ffi(value)))
}

/// Reading and building key data.
pub trait KeyDataRead: Sized {
    /// What the key data says.
    spec fn parts(&self) -> KeyView;

    /// The version of the key: odd, so never zero.
    fn version(&self) -> (version: u32)
        ensures
            version == self.parts().version,
            version % 2 == 1,
    ;

    /// The slot index of the key.
    fn idx(&self) -> (idx: u32)
        ensures
            idx == self.parts().idx,
    ;

    /// The key data for a slot index and a version. An even version is raised to the
    /// odd one that follows it.
    fn new(idx: u32, version: u32) -> (key: Self)
        ensures
            key.parts() == (KeyView { idx, version: odd_version_of(version) }),
    ;
}

/// The version a slot has once it is occupied.
pub open spec fn odd_version_of(version: u32) -> u32 {
    if version % 2 == 1 {
        version
    } else {
        (version + 1) as u32
    }
}

impl KeyDataRead for KeyData {
    open spec fn parts(&self) -> KeyView {
        self@
    }

    fn version(&self) -> (version: u32) {
        proof {
            use_type_invariant(self);
        }
        self.version
    }

    fn idx(&self) -> (idx: u32) {
        self.idx
    }

    fn new(idx: u32, version: u32) -> (key: Self) {
        let ffi: u64 = ((version as u64) << 32) | (idx as u64);
        assert(ffi == (version as u64) * 0x1_0000_0000 + (idx as u64)) by (bit_vector)
            requires
                ffi == ((version as u64) << 32) | (idx as u64),
        ;
        KeyData::from_ffi(ffi)
    }
}

impl KeyData {
    /// The key data that `slotmap` reads from a 64-bit word: any word gives a key, and
    /// the lowest bit of its version is set.
    pub fn from_ffi(value: u64) -> (key: KeyData)
        ensures
            key@ == (KeyView {
                idx: (value as int % 0x1_0000_0000) as u32,
                version: odd_version_of((value as int / 0x1_0000_0000) as u32),
            }),
    {
        let word: u64 = slotmap_key_word(value);
        assert((word & 0xffff_ffff) as u32 == value % 0x1_0000_0000 && (word >> 32) as u32 == ((
        value / 0x1_0000_0000) as u32 | 1u32)) by (bit_vector)
            requires
                word == (value | 0x1_0000_0000u64),
        ;
        let version: u32 = (word >> 32) as u32;
        let high: u32 = (value / 0x1_0000_0000) as u32;
        assert((high | 1u32) == (if high % 2 == 1 { high } else { (high + 1) as u32 })
            && (high | 1u32) % 2 == 1) by (bit_vector);
        KeyData { idx: (word & 0xffff_ffff) as u32, version }
    }

    /// The key data as a 64-bit word: the version above the index.
    pub fn as_ffi(&self) -> (value: u64)
        ensures
            value == key_ffi(self@),
            value == self@.version * 0x1_0000_0000 + self@.idx,
    {
        let idx: u32 = self.idx;
        let version: u32 = self.version;
        assert(((version as u64) << 32) | (idx as u64) == (version as u64) * 0x1_0000_0000 + (
        idx as u64)) by (bit_vector);
        ((version as u64) << 32) | (idx as u64)
    }
}

/// Key data that says the same is equal: it has nothing but its index and its version.
pub proof fn lemma_key_data_injective(a: KeyData, b: KeyData)
    requires
        a@ == b@,
    ensures
        a == b,
{
}

/// A key type: a copyable name for the key data inside it.
pub trait Key: Copy + Sized {
    /// What the key says.
    spec fn parts(self) -> KeyView;

    /// The data inside the key.
    fn data(&self) -> (data: KeyData)
        ensures
            data@ == self.parts(),
    ;

    /// The key with the given data.
    fn from_data(data: KeyData) -> (key: Self)
        ensures
            key.parts() == data@,
    ;
}

/// The key type of maps that ask for no other.
#[derive(Clone, Copy, Debug, PartialEq, Eq, Structural)]
pub struct DefaultKey {
    data: KeyData,
}

impl Key for DefaultKey {
    closed spec fn parts(self) -> KeyView {
        self.data@
    }

    fn data(&self) -> (data: KeyData) {
        self.data
    }

    fn from_data(data: KeyData) -> (key: Self) {
        DefaultKey { data }
    }
}

/// Keys that say the same are equal: a key has nothing but its index and its version.
pub proof fn lemma_parts_injective(a: DefaultKey, b: DefaultKey)
    requires
        a.parts() == b.parts(),
    ensures
        a == b,
{
}

/// The key that points to no slot.
pub open spec fn null_parts() -> KeyView {
    KeyView { idx: 0xffff_ffff, version: 1 }
}

impl DefaultKey {
    /// A key that is never in a map.
    pub fn null() -> (key: DefaultKey)
        ensures
            key.parts() == null_parts(),
    {
        DefaultKey { data: KeyData::from_ffi(slotmap_null_word()) }
    }

    /// Whether the key points to no slot.
    pub fn is_null(&self) -> (null: bool)
        ensures
            null == (self.parts().idx == 0xffff_ffff),
    {
        slotmap_word_is_null(self.data.as_ffi())
    }
}

/// Reading the word of a key gives the key back.
pub proof fn lemma_key_ffi_round(key: KeyView)
    requires
        key.version % 2 == 1,
    ensures
        key == (KeyView {
            idx: (key_ffi(key) as int % 0x1_0000_0000) as u32,
            version: odd_version_of((key_ffi(key) as int / 0x1_0000_0000) as u32),
        }),
{
}

/// Equal words come from equal keys.
pub proof fn lemma_key_ffi_injective(a: KeyView, b: KeyView)
    requires
        key_ffi(a) == key_ffi(b),
    ensures
        a == b,
{
    assert(a.version * 0x1_0000_0000 + a.idx == b.version * 0x1_0000_0000 + b.idx);
}

} // verus!
