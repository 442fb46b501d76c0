//! The lookup table a processing run produces: original path to
//! fingerprinted path, write-once per key, plus the output root it was
//! built for.

use vstd::prelude::*;

use crate::codec::append_record;
use crate::codec::lemma_ser_entries_front_push;
use crate::codec::pairs_view;
use crate::codec::parse_doc;
use crate::codec::parse_doc_str;
use crate::codec::parse_table;
use crate::codec::push_char;
use crate::codec::ser_entries;
use crate::codec::ser_entries_front;
use crate::codec::ser_record;
use crate::codec::ser_table;
use crate::paths::str_eq;

verus! {

/// Mathematical model of a lookup table: the entries in insertion order and
/// the output root recorded beside them.
pub ghost struct TableModel {
    pub base_dir: Seq<char>,
    pub entries: Seq<(Seq<char>, Seq<char>)>,
}

/// No key occurs twice.
pub open spec fn unique_keys(entries: Seq<(Seq<char>, Seq<char>)>) -> bool {
    forall|i: int, j: int| 0 <= i < j < entries.len() ==> entries[i].0 != entries[j].0
}

/// Whether some entry carries the key `k`.
pub open spec fn has_key(entries: Seq<(Seq<char>, Seq<char>)>, k: Seq<char>) -> bool {
    exists|i: int| 0 <= i < entries.len() && entries[i].0 == k
}

/// The value stored under `k`: the first entry with that key wins.
pub open spec fn lookup(entries: Seq<(Seq<char>, Seq<char>)>, k: Seq<char>) -> Option<Seq<char>>
    decreases entries.len(),
{
    if entries.len() == 0 {
        None
    } else if entries[0].0 == k {
        Some(entries[0].1)
    } else {
        lookup(entries.drop_first(), k)
    }
}

/// A key that no entry carries looks up to nothing, and conversely.
pub proof fn lemma_lookup_none(entries: Seq<(Seq<char>, Seq<char>)>, k: Seq<char>)
    ensures
        lookup(entries, k) is None <==> !has_key(entries, k),
    decreases entries.len(),
{
    if entries.len() > 0 && entries[0].0 != k {
        lemma_lookup_none(entries.drop_first(), k);
        assert(forall|i: int|
            0 < i < entries.len() ==> entries.drop_first()[i - 1] == entries[i]);
        if has_key(entries, k) {
            let i = choose|i: int| 0 <= i < entries.len() && entries[i].0 == k;
            assert(entries.drop_first()[i - 1].0 == k);
        }
    }
}

/// When the first match for `k` stands at index `i`, that is what lookup
/// returns.
pub proof fn lemma_lookup_at(entries: Seq<(Seq<char>, Seq<char>)>, k: Seq<char>, i: int)
    requires
        0 <= i < entries.len(),
        entries[i].0 == k,
        forall|j: int| 0 <= j < i ==> entries[j].0 != k,
    ensures
        lookup(entries, k) == Some(entries[i].1),
    decreases i,
{
    if i > 0 {
        lemma_lookup_at(entries.drop_first(), k, i - 1);
    }
}

/// Filemap struct
///
/// maps original names to generated names
pub struct Files {
    /// filemap of original path to modified path, in insertion order
    pub map: Vec<(String, String)>,
    base_dir: String,
}

impl View for Files {
    type V = TableModel;

    closed spec fn view(&self) -> TableModel {
        TableModel {
            base_dir: self.base_dir@,
            entries: Seq::new(self.map@.len(), |i: int| (self.map@[i].0@, self.map@[i].1@)),
        }
    }
}

impl Files {
    /// The table's invariant: keys are unique, the table is write-once per
    /// key.
    pub open spec fn wf(&self) -> bool {
        unique_keys(self@.entries)
    }

    /// Creates an empty table that records `base_dir` as the output root.
    pub fn new(base_dir: &str) -> (r: Files)
        ensures
            r@.base_dir == base_dir@,
            r@.entries == Seq::<(Seq<char>, Seq<char>)>::empty(),
            r.wf(),
    {
        let r = Files { map: Vec::new(), base_dir: String::from_str(base_dir) };
        proof {
            assert(r@.entries =~= Seq::<(Seq<char>, Seq<char>)>::empty());
        }
        r
    }

    /// Exact-match lookup of the stored path for `path`, in full.
    pub fn get(&self, path: &str) -> (r: Option<&String>)
        ensures
            match r {
                Some(v) => lookup(self@.entries, path@) == Some(v@),
                None => lookup(self@.entries, path@) is None,
            },
    {
        let n = self.map.len();
        let mut i: usize = 0;
        while i < n
            invariant
                n == self.map@.len(),
                n == self@.entries.len(),
                i <= n,
                forall|j: int| 0 <= j < i ==> self@.entries[j].0 != path@,
                forall|j: int|
                    0 <= j < n ==> self@.entries[j] == (self.map@[j].0@, self.map@[j].1@),
            decreases n - i,
        {
            if str_eq(self.map[i].0.as_str(), path) {
                proof {
                    lemma_lookup_at(self@.entries, path@, i as int);
                }
                return Some(&self.map[i].1);
            }
            i += 1;
        }
        proof {
            lemma_lookup_none(self@.entries, path@);
        }
        None
    }

    /// Inserts a mapping; a key already present is refused and the table is
    /// left unchanged.
    pub fn add(&mut self, k: String, v: String) -> (r: Result<(), &'static str>)
        ensures
            r is Ok <==> !has_key(old(self)@.entries, k@),
            r is Ok ==> final(self)@.entries == old(self)@.entries.push((k@, v@)),
            r is Err ==> final(self)@ == old(self)@,
            final(self)@.base_dir == old(self)@.base_dir,
            old(self).wf() ==> final(self).wf(),
    {
        let n = self.map.len();
        let mut i: usize = 0;
        while i < n
            invariant
                self@ == old(self)@,
                n == self.map@.len(),
                n == self@.entries.len(),
                i <= n,
                forall|j: int| 0 <= j < i ==> self@.entries[j].0 != k@,
                forall|j: int|
                    0 <= j < n ==> self@.entries[j] == (self.map@[j].0@, self.map@[j].1@),
            decreases n - i,
        {
            if str_eq(self.map[i].0.as_str(), k.as_str()) {
                proof {
                    assert(has_key(old(self)@.entries, k@)) by {
                        assert(old(self)@.entries[i as int].0 == k@);
                    }
                }
                return Err("key exists");
            }
            i += 1;
        }
        self.map.push((k, v));
        proof {
            assert(self@.entries =~= old(self)@.entries.push((k@, v@)));
        }
        Ok(())
    }

    /// Renders the table in its transport form.
    pub fn serialize(&self) -> (r: String)
        ensures
            r@ == ser_table(self@),
    {
        let mut out = String::new();
        append_record(&mut out, self.base_dir.as_str());
        let n = self.map.len();
        let mut i: usize = 0;
        while i < n
            invariant
                n == self.map@.len(),
                n == self@.entries.len(),
                i <= n,
                forall|j: int|
                    0 <= j < n ==> self@.entries[j] == (self.map@[j].0@, self.map@[j].1@),
                out@ == ser_record(self@.base_dir) + ser_entries_front(
                    self@.entries.take(i as int),
                ),
            decreases n - i,
        {
            let ghost before = out@;
            push_char(&mut out, 'E');
            append_record(&mut out, self.map[i].0.as_str());
            append_record(&mut out, self.map[i].1.as_str());
            proof {
                lemma_ser_entries_front_push(self@.entries.take(i as int), self@.entries[i as int]);
                assert(self@.entries.take(i + 1) =~= self@.entries.take(i as int).push(
                    self@.entries[i as int],
                ));
                assert(before.push('E') =~= before + seq!['E']);
                assert(out@ =~= ser_record(self@.base_dir) + ser_entries_front(
                    self@.entries.take(i + 1),
                ));
            }
            i += 1;
        }
        push_char(&mut out, '.');
        proof {
            assert(self@.entries.take(n as int) =~= self@.entries);
            assert(out@ =~= ser_record(self@.base_dir) + ser_entries(self@.entries));
        }
        out
    }

    /// Reads a table back from its transport form; text that the rendering
    /// cannot have produced, or a document whose keys repeat, is refused.
    pub fn load(s: &str) -> (r: Option<Files>)
        ensures
            match r {
                Some(f) => parse_table(s@) == Some(f@) && f.wf(),
                None => parse_table(s@) is None,
            },
    {
        let doc = parse_doc_str(s);
        match doc {
            None => None,
            Some((base, pairs)) => {
                let ghost es = pairs_view(pairs@);
                let mut f = Files::new(base.as_str());
                let n = pairs.len();
                let mut i: usize = 0;
                while i < n
                    invariant
                        n == pairs@.len(),
                        n == es.len(),
                        es == pairs_view(pairs@),
                        i <= n,
                        f.wf(),
                        f@.base_dir == base@,
                        f@.entries == es.take(i as int),
                        parse_doc(s@) == Some((base@, es)),
                    decreases n - i,
                {
                    let k = pairs[i].0.clone();
                    let v = pairs[i].1.clone();
                    proof {
                        assert(es[i as int] == (pairs@[i as int].0@, pairs@[i as int].1@));
                    }
                    match f.add(k, v) {
                        Ok(_) => {
                            proof {
                                assert(f@.entries =~= es.take(i + 1));
                            }
                        },
                        Err(_) => {
                            proof {
                                let j = choose|j: int|
                                    0 <= j < es.take(i as int).len() && es.take(i as int)[j].0
                                        == es[i as int].0;
                                assert(es[j].0 == es[i as int].0);
                                assert(!unique_keys(es));
                            }
                            return None;
                        },
                    }
                    i += 1;
                }
                proof {
                    assert(es.take(n as int) =~= es);
                }
                Some(f)
            },
        }
    }
}

} // verus!
