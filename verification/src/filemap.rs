//! The runtime side of the lookup table: a serving application loads the
//! table a processing run produced and translates logical asset paths into
//! the fingerprinted paths that exist on disk.

use vstd::prelude::*;

use crate::codec::pairs_view;
use crate::codec::parse_doc;
use crate::codec::parse_doc_str;
use crate::codec::parse_table;
use crate::map::TableModel;
use crate::map::lookup;
use crate::map::unique_keys;
use crate::paths::str_eq;
use vstd::pervasive::unreached;

verus! {

/// Filemap struct
///
/// maps original names to generated names
pub struct Files {
    map: Vec<(String, String)>,
    base_dir: String,
}

impl View for Files {
    type V = TableModel;

    closed spec fn view(&self) -> TableModel {
        TableModel {
            base_dir: self.base_dir@,
            entries: Seq::new(self.map@.len(), |i: int| (self.map@[i].0@, self.map@[i].1@)),
        }
    }
}

impl Files {
    /// The loaded table never mutates, so unique keys once mean unique keys
    /// always.
    pub open spec fn wf(&self) -> bool {
        unique_keys(self@.entries)
    }

    /// Loads the filemap from its transport form. A payload that does not
    /// read back as a table aborts the consuming process's startup, so a
    /// caller must hand over well-formed transport text.
    pub fn new(map: &str) -> (r: Files)
        requires
            parse_table(map@) is Some,
        ensures
            parse_table(map@) == Some(r@),
            r.wf(),
    {
        match parse_doc_str(map) {
            None => unreached(),
            Some((base, pairs)) => {
                let r = Files { map: pairs, base_dir: base };
                proof {
                    assert(r@.entries =~= pairs_view(r.map@));
                }
                r
            },
        }
    }

    /// The stored path for `path` with the recorded base directory's length
    /// of characters cut off the front, the way a route under the output
    /// root is served. Nothing is returned for an unknown path, nor for a
    /// stored path too short to outlast the cut.
    pub fn get<'a>(&'a self, path: &'a str) -> (r: Option<&'a str>)
        ensures
            match r {
                Some(v) => lookup(self@.entries, path@) matches Some(full) && full.len()
                    >= self@.base_dir.len() && v@ == full.skip(self@.base_dir.len() as int),
                None => lookup(self@.entries, path@) matches Some(full) ==> full.len()
                    < self@.base_dir.len(),
            },
    {
        match self.get_full_path(path) {
            None => None,
            Some(full) => {
                let cut = self.base_dir.as_str().unicode_len();
                let full_len = full.as_str().unicode_len();
                if full_len < cut {
                    None
                } else {
                    Some(full.as_str().substring_char(cut, full_len))
                }
            },
        }
    }

    /// The stored path for `path`, in full: base directory included.
    pub fn get_full_path<'a>(&'a self, path: &'a str) -> (r: Option<&'a String>)
        ensures
            match r {
                Some(v) => lookup(self@.entries, path@) == Some(v@),
                None => lookup(self@.entries, path@) is None,
            },
    {
        let n = self.map.len();
        let mut i: usize = 0;
        while i < n
            invariant
                n == self.map@.len(),
                n == self@.entries.len(),
                i <= n,
                forall|j: int| 0 <= j < i ==> self@.entries[j].0 != path@,
                forall|j: int|
                    0 <= j < n ==> self@.entries[j] == (self.map@[j].0@, self.map@[j].1@),
            decreases n - i,
        {
            if str_eq(self.map[i].0.as_str(), path) {
                proof {
                    crate::map::lemma_lookup_at(self@.entries, path@, i as int);
                }
                return Some(&self.map[i].1);
            }
            i += 1;
        }
        proof {
            crate::map::lemma_lookup_none(self@.entries, path@);
        }
        None
    }
}

} // verus!
