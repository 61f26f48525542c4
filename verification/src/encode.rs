//! Encodings of tables that other crates compute: big-endian keys, finite
//! state transducers and tries.

use vstd::prelude::*;
use vstd::string::*;
use byteorder::{BigEndian, ByteOrder};
use ucd_trie::TrieSetOwned;

verus! {

/// The four bytes of `n`, the most significant first.
pub open spec fn be_bytes(n: u32) -> Seq<u8> {
    seq![
        (n / 0x100_0000) as u8,
        (n / 0x1_0000 % 0x100) as u8,
        (n / 0x100 % 0x100) as u8,
        (n % 0x100) as u8,
    ]
}

/// The four bytes that `byteorder::BigEndian::write_u32` writes for `n`:
/// those of `n`, the most significant first.
#[verifier::external_body]
fn big_endian(n: u32) -> (bytes: [u8; 4])
    ensures
        bytes@ == be_bytes(n),
{
    let mut bytes = [0; 4];
    BigEndian::write_u32(&mut bytes, n);
    bytes
}

/// The codepoint as a key of four bytes in big-endian order.
pub fn u32_key(cp: u32) -> (key: [u8; 4])
    ensures
        key@ == be_bytes(cp),
{
    big_endian(cp)
}

/// The bytes of the set that `fst::SetBuilder` builds from the keys.
pub uninterp spec fn fst_set_bytes(keys: Seq<Seq<u8>>) -> Seq<u8>;

/// The bytes of the map that `fst::MapBuilder` builds from the entries.
pub uninterp spec fn fst_map_bytes(entries: Seq<(Seq<u8>, u64)>) -> Seq<u8>;

/// The views of the keys.
pub open spec fn key_views(keys: Seq<Vec<u8>>) -> Seq<Seq<u8>> {
    keys.map_values(|k: Vec<u8>| k@)
}

/// The views of the entries.
pub open spec fn entry_views(entries: Seq<(Vec<u8>, u64)>) -> Seq<(Seq<u8>, u64)> {
    entries.map_values(|e: (Vec<u8>, u64)| (e.0@, e.1))
}

/// Whether `a` comes before `b` in the order of byte strings: the first
/// byte in which they differ decides, and a byte string comes before its
/// extensions.
pub open spec fn bytes_lt(a: Seq<u8>, b: Seq<u8>) -> bool
    decreases a.len(),
{
    if b.len() == 0 {
        false
    } else if a.len() == 0 {
        true
    } else if a[0] != b[0] {
        a[0] < b[0]
    } else {
        bytes_lt(a.drop_first(), b.drop_first())
    }
}

/// The keys of numbers stand in the order of the numbers.
pub proof fn lemma_be_bytes_order(a: u32, b: u32)
    ensures
        bytes_lt(be_bytes(a), be_bytes(b)) <==> a < b,
        be_bytes(a) == be_bytes(b) <==> a == b,
{
    let x = be_bytes(a);
    let y = be_bytes(b);
    reveal_with_fuel(bytes_lt, 5);
    let x1 = x.drop_first();
    let y1 = y.drop_first();
    let x2 = x1.drop_first();
    let y2 = y1.drop_first();
    let x3 = x2.drop_first();
    let y3 = y2.drop_first();
    assert(x1[0] == x[1] && x2[0] == x[2] && x3[0] == x[3]);
    assert(y1[0] == y[1] && y2[0] == y[2] && y3[0] == y[3]);
    assert(x3.drop_first().len() == 0 && y3.drop_first().len() == 0);
    assert(a == x[0] * 0x100_0000 + x[1] * 0x1_0000 + x[2] * 0x100 + x[3]);
    assert(b == y[0] * 0x100_0000 + y[1] * 0x1_0000 + y[2] * 0x100 + y[3]);
    if x == y {
        assert(x[0] == y[0] && x[1] == y[1] && x[2] == y[2] && x[3] == y[3]);
    }
}

/// Whether no key comes before the key in front of it.
pub open spec fn keys_in_order(keys: Seq<Seq<u8>>) -> bool {
    forall|i: int, j: int|
        0 <= i && j == i + 1 && j < keys.len() ==> !bytes_lt(#[trigger] keys[j], #[trigger] keys[i])
}

/// Whether no key comes before the key in front of it or is that key.
pub open spec fn keys_increase(entries: Seq<(Seq<u8>, u64)>) -> bool {
    forall|i: int, j: int|
        0 <= i && j == i + 1 && j < entries.len() ==> (#[trigger] entries[j]).0 != (
        #[trigger] entries[i]).0 && !bytes_lt(entries[j].0, entries[i].0)
}

/// Builds a set of keys in memory with `fst::SetBuilder`, reads it back
/// with `fst::Set::from_bytes` and gives its bytes, or what the crate says
/// of its error. The crate refuses a key that comes before the key in
/// front of it, and nothing else; a key may stand twice.
#[verifier::external_body]
pub(crate) fn build_fst_set(keys: &Vec<Vec<u8>>) -> (r: Result<Vec<u8>, String>)
    ensures
        r is Ok <==> keys_in_order(key_views(keys@)),
        r is Ok ==> r->Ok_0@ == fst_set_bytes(key_views(keys@)),
{
    let mut builder = fst::SetBuilder::memory();
    if let Err(e) = builder.extend_iter(keys.iter()) {
        return Err(e.to_string());
    }
    let bytes = match builder.into_inner() {
        Ok(bytes) => bytes,
        Err(e) => return Err(e.to_string()),
    };
    match fst::Set::from_bytes(bytes) {
        Ok(set) => Ok(set.as_fst().to_vec()),
        Err(e) => Err(e.to_string()),
    }
}

/// Builds a map in memory with `fst::MapBuilder`, reads it back with
/// `fst::Map::from_bytes` and gives its bytes, or what the crate says of
/// its error. The crate refuses a key that comes before the key in front
/// of it or is that key, and nothing else.
#[verifier::external_body]
pub(crate) fn build_fst_map(entries: &Vec<(Vec<u8>, u64)>) -> (r: Result<Vec<u8>, String>)
    ensures
        r is Ok <==> keys_increase(entry_views(entries@)),
        r is Ok ==> r->Ok_0@ == fst_map_bytes(entry_views(entries@)),
{
    let mut builder = fst::MapBuilder::memory();
    if let Err(e) = builder.extend_iter(entries.iter().map(|e| (&e.0, e.1))) {
        return Err(e.to_string());
    }
    let bytes = match builder.into_inner() {
        Ok(bytes) => bytes,
        Err(e) => return Err(e.to_string()),
    };
    match fst::Map::from_bytes(bytes) {
        Ok(map) => Ok(map.as_fst().to_vec()),
        Err(e) => Err(e.to_string()),
    }
}

/// A set of codepoints as a trie of three trees: the parts of a
/// `ucd_trie::TrieSetSlice`.
pub struct TrieSet {
    pub tree1_level1: Vec<u64>,
    pub tree2_level1: Vec<u8>,
    pub tree2_level2: Vec<u64>,
    pub tree3_level1: Vec<u8>,
    pub tree3_level2: Vec<u8>,
    pub tree3_level3: Vec<u64>,
}

/// A trie as a mathematical value.
pub struct TrieModel {
    pub tree1_level1: Seq<u64>,
    pub tree2_level1: Seq<u8>,
    pub tree2_level2: Seq<u64>,
    pub tree3_level1: Seq<u8>,
    pub tree3_level2: Seq<u8>,
    pub tree3_level3: Seq<u64>,
}

impl TrieSet {
    /// The trie as a mathematical value.
    pub open spec fn view(&self) -> TrieModel {
        TrieModel {
            tree1_level1: self.tree1_level1@,
            tree2_level1: self.tree2_level1@,
            tree2_level2: self.tree2_level2@,
            tree3_level1: self.tree3_level1@,
            tree3_level2: self.tree3_level2@,
            tree3_level3: self.tree3_level3@,
        }
    }
}

/// The trie that `ucd_trie::TrieSetOwned::from_codepoints` builds.
pub uninterp spec fn trie_of(codepoints: Seq<u32>) -> TrieModel;

/// Builds the trie of the codepoints with
/// `ucd_trie::TrieSetOwned::from_codepoints` and copies its parts, or
/// gives what the crate says of its error. The crate refuses a number
/// beyond the last codepoint, and gives up on a set that it cannot
/// compress enough.
#[verifier::external_body]
pub(crate) fn build_trie(codepoints: &Vec<u32>) -> (r: Result<TrieSet, String>)
    ensures
        r is Ok ==> r->Ok_0@ == trie_of(codepoints@),
        (exists|i: int| 0 <= i < codepoints@.len() && #[trigger] codepoints@[i] > 0x10FFFF) ==> r
            is Err,
{
    let owned = match TrieSetOwned::from_codepoints(codepoints) {
        Ok(owned) => owned,
        Err(e) => return Err(e.to_string()),
    };
    let trie = owned.as_slice();
    Ok(TrieSet {
        tree1_level1: trie.tree1_level1.to_vec(),
        tree2_level1: trie.tree2_level1.to_vec(),
        tree2_level2: trie.tree2_level2.to_vec(),
        tree3_level1: trie.tree3_level1.to_vec(),
        tree3_level2: trie.tree3_level2.to_vec(),
        tree3_level3: trie.tree3_level3.to_vec(),
    })
}

} // verus!
