//! The persistent copy of the text server's data: the JSON text that the
//! data file holds, and the data that a file's text gives back.
use vstd::prelude::*;

use crate::store::{insert_pairs, pair_views, sorted_keys, Entries, Store};
use crate::subs::json_escape;

verus! {

/// What `serde_json::from_str::<BTreeMap<String, String>>` reads from a text:
/// the entries of the object, or none when the text is no such object.
pub uninterp spec fn json_entries(text: Seq<char>) -> Option<Entries<Seq<char>>>;

/// One member of a JSON object of text values: the key and the value in
/// quotes, escaped as serde_json's string writer does.
pub open spec fn member_text(e: (Seq<char>, Seq<char>)) -> Seq<char> {
    seq!['"'] + json_escape(e.0) + seq!['"', ':', '"'] + json_escape(e.1) + seq!['"']
}

/// The members, separated by commas.
pub open spec fn members_text(e: Entries<Seq<char>>) -> Seq<char>
    decreases e.len(),
{
    if e.len() == 0 {
        Seq::empty()
    } else if e.len() == 1 {
        member_text(e[0])
    } else {
        members_text(e.drop_last()) + seq![','] + member_text(e.last())
    }
}

/// What `serde_json::to_string` writes for a map of text values whose
/// entries, in key order, are `e`: `{`, the members, `}`.
pub open spec fn json_text(e: Entries<Seq<char>>) -> Seq<char> {
    seq!['{'] + members_text(e) + seq!['}']
}

/// serde_json's `from_str` into a `BTreeMap<String, String>`, its entries
/// handed out with each key as its characters.
#[verifier::external_body]
fn parse_entries(text: &str) -> (r: Option<Vec<(Vec<char>, String)>>)
    ensures
        match r {
            Some(v) => json_entries(text@) == Some(pair_views(v@)),
            None => json_entries(text@) is None,
        },
{
    match serde_json::from_str::<std::collections::BTreeMap<String, String>>(text) {
        Ok(map) => {
            let mut out = Vec::new();
            for (k, v) in map {
                out.push((k.chars().collect(), v));
            }
            Some(out)
        },
        Err(_) => None,
    }
}

/// serde_json's `to_string` of the `BTreeMap<String, String>` that holds the
/// entries. With the keys in order, the map walks them as they are given and
/// serde_json writes `json_text` of them, compactly; a map with text keys and
/// values gives no error. `from_str` reads the text back as that map.
#[verifier::external_body]
fn write_entries(entries: &[(Vec<char>, String)]) -> (r: Option<String>)
    requires
        sorted_keys(pair_views(entries@)),
    ensures
        match r {
            Some(t) => {
                &&& t@ == json_text(pair_views(entries@))
                &&& json_entries(t@) matches Some(d) && insert_pairs(Map::empty(), d) == insert_pairs(
                    Map::empty(),
                    pair_views(entries@),
                )
            },
            None => false,
        },
{
    let mut map = std::collections::BTreeMap::new();
    for (k, v) in entries {
        map.insert(k.iter().collect::<String>(), v.clone());
    }
    serde_json::to_string(&map).ok()
}

/// The data and whether it changed since it was last saved.
pub struct DB {
    pub data: Store<String>,
    pub modified: bool,
}

impl DB {
    pub fn new(data: Store<String>) -> (db: DB)
        ensures
            db.data@ == data@,
            !db.modified,
    {
        DB { data, modified: false }
    }

    /// Loads the text that the data file holds: an empty text (a new file)
    /// leaves the data as it is. Gives `false`, and leaves the data as it is,
    /// when the text holds no JSON object of text values: the server cannot
    /// start from such a file.
    pub fn load_from_file(&mut self, contents: &str) -> (loaded: bool)
        requires
            old(self).data.wf(),
        ensures
            final(self).data.wf(),
            final(self).modified == old(self).modified,
            loaded == (contents@.len() == 0 || json_entries(contents@) is Some),
            contents@.len() == 0 ==> final(self).data@ == old(self).data@,
            contents@.len() > 0 ==> match json_entries(contents@) {
                Some(e) => final(self).data.map() == insert_pairs(Map::empty(), e),
                None => final(self).data@ == old(self).data@,
            },
    {
        if contents.is_empty() {
            return true;
        }
        match parse_entries(contents) {
            Some(entries) => {
                self.data = Store::from_pairs(entries);
                true
            },
            None => false,
        }
    }

    /// The text to write to the data file; loading it gives back the data.
    pub fn save_to_file(&self) -> (r: Option<String>)
        requires
            self.data.wf(),
        ensures
            r matches Some(t) && t@ == json_text(self.data@) && t@.len() > 0,
            r matches Some(t) ==> (json_entries(t@) matches Some(d) && insert_pairs(Map::empty(), d) == self.data.map()),
    {
        let entries = self.data.pairs();
        let r = write_entries(entries.as_slice());
        proof {
            crate::store::lemma_insert_pairs_to_map(self.data@);
        }
        r
    }

    /// Records whether a request changed the data.
    pub fn touch(&mut self, changed: bool)
        ensures
            final(self).data@ == old(self).data@,
            final(self).modified == (old(self).modified || changed),
    {
        self.modified = self.modified || changed;
    }

    /// Whether the data changed since it was last saved; from now on it
    /// counts as saved.
    pub fn take_modified(&mut self) -> (was: bool)
        ensures
            was == old(self).modified,
            !final(self).modified,
            final(self).data@ == old(self).data@,
    {
        let was = self.modified;
        self.modified = false;
        was
    }
}

} // verus!
