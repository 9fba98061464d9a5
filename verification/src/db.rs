//! The persistent copy of the data: the bytes that the data file holds, and
//! the data that a file's bytes give back.
use vstd::prelude::*;

use crate::store::{insert_pairs, pair_views, sorted_keys, Entries, Store};
use vstd::utf8::encode_utf8;

verus! {

/// What `bincode::deserialize::<BTreeMap<String, Vec<u8>>>` reads from a
/// file's bytes: the entries of the map, or none when the bytes hold none.
pub uninterp spec fn bincode_entries(bytes: Seq<u8>) -> Option<Entries<Seq<u8>>>;

/// The `k` low bytes of `n`, least significant first.
pub open spec fn le_bytes(n: nat, k: nat) -> Seq<u8>
    decreases k,
{
    if k == 0 {
        Seq::empty()
    } else {
        seq![(n % 256) as u8] + le_bytes(n / 256, (k - 1) as nat)
    }
}

/// An entry as bincode writes it: the key's length (8 bytes, little end
/// first) and its UTF-8 bytes, then the value's length and its bytes.
pub open spec fn entry_bytes(e: (Seq<char>, Seq<u8>)) -> Seq<u8> {
    le_bytes(encode_utf8(e.0).len(), 8) + encode_utf8(e.0) + le_bytes(e.1.len(), 8) + e.1
}

pub open spec fn entries_bytes(e: Entries<Seq<u8>>) -> Seq<u8>
    decreases e.len(),
{
    if e.len() == 0 {
        Seq::empty()
    } else {
        entries_bytes(e.drop_last()) + entry_bytes(e.last())
    }
}

/// What `bincode::serialize` writes for a map whose entries, in key order,
/// are `e`: their number (8 bytes, little end first), then each entry.
pub open spec fn bincode_bytes(e: Entries<Seq<u8>>) -> Seq<u8> {
    le_bytes(e.len(), 8) + entries_bytes(e)
}

/// bincode's `deserialize` of a `BTreeMap<String, Vec<u8>>`, its entries
/// handed out with each key as its characters.
#[verifier::external_body]
fn decode_entries(bytes: &[u8]) -> (r: Option<Vec<(Vec<char>, Vec<u8>)>>)
    ensures
        match r {
            Some(v) => bincode_entries(bytes@) == Some(pair_views(v@)),
            None => bincode_entries(bytes@) is None,
        },
{
    match bincode::deserialize::<std::collections::BTreeMap<String, Vec<u8>>>(bytes) {
        Ok(map) => {
            let mut out = Vec::new();
            for (k, v) in map {
                out.push((k.chars().collect(), v));
            }
            Some(out)
        },
        Err(_) => None,
    }
}

/// bincode's `serialize` of the `BTreeMap<String, Vec<u8>>` that holds the
/// entries. With the keys in order, the map walks them as they are given, and
/// bincode (fixed-width integers, little end first) writes `bincode_bytes`
/// of them; it reports no error for such a map, whose length is known.
/// `deserialize` reads the bytes back as that map.
#[verifier::external_body]
fn encode_entries(entries: &[(Vec<char>, Vec<u8>)]) -> (r: Option<Vec<u8>>)
    requires
        sorted_keys(pair_views(entries@)),
    ensures
        match r {
            Some(b) => {
                &&& b@ == bincode_bytes(pair_views(entries@))
                &&& bincode_entries(b@) matches Some(d) && insert_pairs(Map::empty(), d) == insert_pairs(
                    Map::empty(),
                    pair_views(entries@),
                )
            },
            None => false,
        },
{
    let mut map = std::collections::BTreeMap::new();
    for (k, v) in entries {
        map.insert(k.iter().collect::<String>(), v.clone());
    }
    bincode::serialize(&map).ok()
}

/// The data after loading a file: empty bytes (a new file) leave it as it
/// is; otherwise it is what the bytes hold, or nothing when they hold no map.
pub open spec fn load_spec(m: Map<Seq<char>, Seq<u8>>, bytes: Seq<u8>) -> Map<Seq<char>, Seq<u8>> {
    if bytes.len() == 0 {
        m
    } else {
        match bincode_entries(bytes) {
            Some(e) => insert_pairs(Map::empty(), e),
            None => Map::empty(),
        }
    }
}

/// The data and whether it changed since it was last saved.
pub struct DB {
    pub data: Store<Vec<u8>>,
    pub modified: bool,
}

impl DB {
    pub fn new(data: Store<Vec<u8>>) -> (db: DB)
        ensures
            db.data@ == data@,
            !db.modified,
    {
        DB { data, modified: false }
    }

    /// Loads the bytes that the data file holds.
    pub fn load_from_file(&mut self, content: &[u8])
        requires
            old(self).data.wf(),
        ensures
            final(self).data.wf(),
            final(self).data.map() == load_spec(old(self).data.map(), content@),
            final(self).modified == old(self).modified,
    {
        if content.len() > 0 {
            let loaded = match decode_entries(content) {
                Some(entries) => Store::from_pairs(entries),
                None => {
                    let s: Store<Vec<u8>> = Store::new();
                    s
                },
            };
            self.data = loaded;
        }
    }

    /// The bytes to write to the data file; loading them gives back the data,
    /// whatever was loaded before.
    pub fn save_to_file(&self) -> (r: Option<Vec<u8>>)
        requires
            self.data.wf(),
        ensures
            r matches Some(b) && b@ == bincode_bytes(self.data@),
            r matches Some(b) ==> forall|m: Map<Seq<char>, Seq<u8>>| #[trigger] load_spec(m, b@) == self.data.map(),
    {
        let entries = self.data.pairs();
        let r = encode_entries(entries.as_slice());
        proof {
            crate::store::lemma_insert_pairs_to_map(self.data@);
        }
        r
    }

    /// Records whether a request changed the data.
    pub fn touch(&mut self, changed: bool)
        ensures
            final(self).data@ == old(self).data@,
            final(self).modified == (old(self).modified || changed),
    {
        self.modified = self.modified || changed;
    }

    /// Whether the data changed since it was last saved; from now on it
    /// counts as saved.
    pub fn take_modified(&mut self) -> (was: bool)
        ensures
            was == old(self).modified,
            !final(self).modified,
            final(self).data@ == old(self).data@,
    {
        let was = self.modified;
        self.modified = false;
        was
    }
}

} // verus!
