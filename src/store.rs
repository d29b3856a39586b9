//! The store: an in-memory map from keys to values, with the directory it
//! belongs to, loaded from and saved to the lines of that directory's data file.
use vstd::prelude::*;
use crate::codec::{
    decode_line, encode_line, key_val_to_raw_line, lemma_line_round_trip, raw_line_to_key_val,
};
use crate::error::StoreError;

verus! {

/// No key occurs twice in a list of records.
pub open spec fn keys_unique(es: Seq<(Seq<char>, Seq<char>)>) -> bool {
    forall|i: int, j: int| 0 <= i < es.len() && 0 <= j < es.len() && i != j ==> es[i].0 != es[j].0
}

/// The map that a list of records builds when inserted in order (a later
/// record for a key replaces an earlier one).
pub open spec fn entries_map(es: Seq<(Seq<char>, Seq<char>)>) -> Map<Seq<char>, Seq<char>>
    decreases es.len(),
{
    if es.len() == 0 {
        Map::empty()
    } else {
        entries_map(es.drop_last()).insert(es.last().0, es.last().1)
    }
}

/// The map that loading `lines` into `m` gives: each line that decodes is
/// inserted in order, each malformed line is skipped.
pub open spec fn load_lines(m: Map<Seq<char>, Seq<char>>, lines: Seq<Seq<char>>) -> Map<
    Seq<char>,
    Seq<char>,
>
    decreases lines.len(),
{
    if lines.len() == 0 {
        m
    } else {
        let before = load_lines(m, lines.drop_last());
        match decode_line(lines.last()) {
            Some((k, v)) => before.insert(k, v),
            None => before,
        }
    }
}

/// How many of `lines` are malformed.
pub open spec fn count_malformed(lines: Seq<Seq<char>>) -> nat
    decreases lines.len(),
{
    if lines.len() == 0 {
        0
    } else {
        count_malformed(lines.drop_last()) + if decode_line(lines.last()) is None {
            1nat
        } else {
            0nat
        }
    }
}

/// `line` is the line of one record of `m`.
pub open spec fn is_record_line(m: Map<Seq<char>, Seq<char>>, line: Seq<char>) -> bool {
    exists|k: Seq<char>| #[trigger] m.contains_key(k) && line == encode_line(k, m[k])
}

/// The character sequences of a list of strings.
pub open spec fn lines_view(lines: Seq<String>) -> Seq<Seq<char>> {
    lines.map_values(|l: String| l@)
}

/// An open store: the directory it was opened from and its records, each key once.
pub struct DataStore {
    path: String,
    in_mem_data: Vec<(String, String)>,
}

impl View for DataStore {
    type V = Map<Seq<char>, Seq<char>>;

    /// The mapping from keys to values that the store holds.
    closed spec fn view(&self) -> Map<Seq<char>, Seq<char>> {
        entries_map(self.entries())
    }
}

impl DataStore {
    /// The records, in the order in which they are held and saved.
    pub closed spec fn entries(&self) -> Seq<(Seq<char>, Seq<char>)> {
        self.in_mem_data@.map_values(|e: (String, String)| (e.0@, e.1@))
    }

    /// The store holds each key once.
    pub closed spec fn wf(&self) -> bool {
        keys_unique(self.entries())
    }

    /// The directory that the store was opened from.
    pub closed spec fn spec_path(&self) -> Seq<char> {
        self.path@
    }

    /// The lines that saving the store writes, one per record.
    pub closed spec fn saved_lines(&self) -> Seq<Seq<char>> {
        self.entries().map_values(|e: (Seq<char>, Seq<char>)| encode_line(e.0, e.1))
    }

    /// The directory that the store was opened from.
    pub fn path(&self) -> (r: &String)
        ensures
            r@ == self.spec_path(),
    {
        &self.path
    }

    fn find(&self, key: &String) -> (r: Option<usize>)
        ensures
            r is Some ==> r->0 < self.entries().len() && self.entries()[r->0 as int].0 == key@,
            r is None ==> forall|i: int| 0 <= i < self.entries().len() ==> self.entries()[i].0 != key@,
    {
        let n = self.in_mem_data.len();
        let mut i: usize = 0;
        while i < n
            invariant
                n == self.in_mem_data@.len(),
                i <= n,
                forall|j: int| 0 <= j < i ==> self.entries()[j].0 != key@,
            decreases n - i,
        {
            if self.in_mem_data[i].0 == *key {
                return Some(i);
            }
            i = i + 1;
        }
        None
    }

    /// Sets the value of `key` to `val`, replacing any earlier value.
    pub fn insert(&mut self, key: String, val: String)
        requires
            old(self).wf(),
        ensures
            final(self).wf(),
            final(self)@ == old(self)@.insert(key@, val@),
            final(self).spec_path() == old(self).spec_path(),
    {
        let ghost es = self.entries();
        let ghost kv = (key@, val@);
        match self.find(&key) {
            Some(i) => {
                proof {
                    lemma_entries_map_update(es, i as int, val@);
                }
                self.in_mem_data.set(i, (key, val));
                assert(self.entries() =~= es.update(i as int, (es[i as int].0, val@)));
            },
            None => {
                self.in_mem_data.push((key, val));
                assert(self.entries() =~= es.push(kv));
                assert(self.entries().drop_last() =~= es);
            },
        }
    }

    /// The value of `key`, if the store holds one.
    pub fn get(&mut self, key: String) -> (r: Option<&String>)
        requires
            old(self).wf(),
        ensures
            *final(self) == *old(self),
            r is Some <==> old(self)@.contains_key(key@),
            r is Some ==> r->0@ == old(self)@[key@],
    {
        match self.find(&key) {
            Some(i) => {
                proof {
                    lemma_entries_map_index(self.entries(), i as int);
                }
                Some(&self.in_mem_data[i].1)
            },
            None => {
                proof {
                    lemma_entries_map_absent(self.entries(), key@);
                }
                None
            },
        }
    }

    /// Drops `key` and its value; a key that the store does not hold is left alone.
    pub fn remove(&mut self, key: String)
        requires
            old(self).wf(),
        ensures
            final(self).wf(),
            final(self)@ == old(self)@.remove(key@),
            final(self).spec_path() == old(self).spec_path(),
    {
        let ghost es = self.entries();
        match self.find(&key) {
            Some(i) => {
                proof {
                    lemma_entries_map_remove(es, i as int);
                }
                self.in_mem_data.remove(i);
                assert(self.entries() =~= es.remove(i as int));
            },
            None => {
                proof {
                    lemma_entries_map_absent(es, key@);
                }
                assert(self@ =~= self@.remove(key@));
            },
        }
    }
}

/// Decodes each line and inserts its record into the store, a later line for
/// a key replacing an earlier one. A malformed line is skipped, and the lines
/// after it are still loaded. Returns how many lines were skipped.
pub fn load_data_file(lines: &Vec<String>, data_store: &mut DataStore) -> (skipped: usize)
    requires
        old(data_store).wf(),
    ensures
        skipped == count_malformed(lines_view(lines@)),
        final(data_store).wf(),
        final(data_store)@ == load_lines(old(data_store)@, lines_view(lines@)),
        final(data_store).spec_path() == old(data_store).spec_path(),
{
    let ghost start = data_store@;
    let n = lines.len();
    let mut i: usize = 0;
    let mut skipped: usize = 0;
    assert(lines_view(lines@).take(0) =~= Seq::<Seq<char>>::empty());
    while i < n
        invariant
            n == lines@.len(),
            i <= n,
            skipped <= i,
            skipped == count_malformed(lines_view(lines@).take(i as int)),
            data_store.wf(),
            data_store@ == load_lines(start, lines_view(lines@).take(i as int)),
            data_store.spec_path() == old(data_store).spec_path(),
        decreases n - i,
    {
        let ghost seen = lines_view(lines@).take(i + 1);
        assert(seen.drop_last() =~= lines_view(lines@).take(i as int));
        assert(seen.last() == lines@[i as int]@);
        match raw_line_to_key_val(lines[i].clone()) {
            Ok((k, v)) => data_store.insert(k, v),
            Err(_) => skipped = skipped + 1,
        }
        i = i + 1;
    }
    assert(lines_view(lines@).take(n as int) =~= lines_view(lines@));
    skipped
}

/// Opens the store of a directory. `is_dir` tells whether the directory
/// exists; `lines` holds the lines of its data file, or `None` where there is
/// no data file, which opens an empty store.
pub fn open_data_store(data_store_name: String, is_dir: bool, lines: Option<Vec<String>>) -> (r:
    Result<DataStore, StoreError>)
    ensures
        r is Err <==> !is_dir,
        r is Err ==> r->Err_0 == StoreError::NotFound,
        r is Ok ==> r->Ok_0.wf() && r->Ok_0.spec_path() == data_store_name@,
        r is Ok ==> r->Ok_0@ == match lines {
            Some(ls) => load_lines(Map::empty(), lines_view(ls@)),
            None => Map::empty(),
        },
{
    if !is_dir {
        return Err(StoreError::NotFound);
    }
    let mut data_store = DataStore { path: data_store_name, in_mem_data: Vec::new() };
    assert(data_store@ =~= Map::<Seq<char>, Seq<char>>::empty()) by {
        assert(data_store.entries() =~= Seq::<(Seq<char>, Seq<char>)>::empty());
    }
    if let Some(ls) = lines {
        load_data_file(&ls, &mut data_store);
    }
    Ok(data_store)
}

/// The lines of the data file that saves `data_store`, one per record.
/// Escaping leaves line breaks alone, so a key or value that holds one
/// spans more than one line once the lines are written to a file.
pub fn data_file_lines(data_store: &DataStore) -> (r: Vec<String>)
    requires
        data_store.wf(),
    ensures
        lines_view(r@) == data_store.saved_lines(),
        r@.len() == data_store@.len(),
        forall|i: int| 0 <= i < r@.len() ==> is_record_line(data_store@, #[trigger] r@[i]@),
        forall|k: Seq<char>|
            #[trigger] data_store@.contains_key(k) ==> lines_view(r@).contains(
                encode_line(k, data_store@[k]),
            ),
{
    let n = data_store.in_mem_data.len();
    let mut out: Vec<String> = Vec::new();
    let mut i: usize = 0;
    while i < n
        invariant
            n == data_store.in_mem_data@.len(),
            i <= n,
            lines_view(out@) =~= data_store.saved_lines().take(i as int),
        decreases n - i,
    {
        let entry = &data_store.in_mem_data[i];
        let line = key_val_to_raw_line(entry.0.as_str(), entry.1.as_str());
        assert(data_store.entries()[i as int] == (entry.0@, entry.1@));
        assert(data_store.saved_lines()[i as int] == line@);
        let ghost prev = out@;
        let ghost added = line@;
        out.push(line);
        assert(lines_view(out@) =~= lines_view(prev).push(added));
        assert(lines_view(out@) =~= data_store.saved_lines().take(i + 1));
        i = i + 1;
    }
    assert(data_store.saved_lines().take(n as int) =~= data_store.saved_lines());
    proof {
        lemma_saved_lines_cover(data_store, out@);
    }
    out
}

/// Saving then loading gives the same mapping back: loading the lines that
/// `data_store` saves into an empty map yields exactly the store's mapping.
pub proof fn lemma_load_save_round_trip(data_store: DataStore)
    ensures
        load_lines(Map::empty(), data_store.saved_lines()) == data_store@,
{
    lemma_load_encoded(data_store.entries());
}

proof fn lemma_load_encoded(es: Seq<(Seq<char>, Seq<char>)>)
    ensures
        load_lines(
            Map::empty(),
            es.map_values(|e: (Seq<char>, Seq<char>)| encode_line(e.0, e.1)),
        ) == entries_map(es),
    decreases es.len(),
{
    let ls = es.map_values(|e: (Seq<char>, Seq<char>)| encode_line(e.0, e.1));
    if es.len() > 0 {
        let last = es.last();
        assert(ls.drop_last() =~= es.drop_last().map_values(
            |e: (Seq<char>, Seq<char>)| encode_line(e.0, e.1),
        ));
        lemma_load_encoded(es.drop_last());
        lemma_line_round_trip(last.0, last.1);
    }
}

/// A second insert of a key overrides the first: inserting `v1` then `v2`
/// under `k` leaves the mapping that inserting `v2` alone gives, and `k` maps to `v2`.
pub proof fn lemma_insert_overwrites(
    m: Map<Seq<char>, Seq<char>>,
    k: Seq<char>,
    v1: Seq<char>,
    v2: Seq<char>,
)
    ensures
        m.insert(k, v1).insert(k, v2) == m.insert(k, v2),
        m.insert(k, v1).insert(k, v2).contains_key(k),
        m.insert(k, v1).insert(k, v2)[k] == v2,
{
    assert(m.insert(k, v1).insert(k, v2) =~= m.insert(k, v2));
}

/// Removing a key twice leaves the mapping as the first removal left it.
pub proof fn lemma_remove_idempotent(m: Map<Seq<char>, Seq<char>>, k: Seq<char>)
    ensures
        m.remove(k).remove(k) == m.remove(k),
{
    assert(m.remove(k).remove(k) =~= m.remove(k));
}

proof fn lemma_entries_map_absent(es: Seq<(Seq<char>, Seq<char>)>, k: Seq<char>)
    requires
        forall|i: int| 0 <= i < es.len() ==> es[i].0 != k,
    ensures
        !entries_map(es).contains_key(k),
    decreases es.len(),
{
    if es.len() > 0 {
        lemma_entries_map_absent(es.drop_last(), k);
    }
}

proof fn lemma_saved_lines_cover(data_store: &DataStore, out: Seq<String>)
    requires
        data_store.wf(),
        lines_view(out) == data_store.saved_lines(),
    ensures
        out.len() == data_store@.len(),
        forall|i: int| 0 <= i < out.len() ==> is_record_line(data_store@, #[trigger] out[i]@),
        forall|k: Seq<char>|
            #[trigger] data_store@.contains_key(k) ==> lines_view(out).contains(
                encode_line(k, data_store@[k]),
            ),
{
    let es = data_store.entries();
    lemma_entries_map_len(es);
    assert(lines_view(out).len() == out.len());
    assert(data_store.saved_lines().len() == es.len());
    assert(data_store@ == entries_map(es));
    assert forall|i: int| 0 <= i < out.len() implies is_record_line(
        data_store@,
        #[trigger] out[i]@,
    ) by {
        assert(lines_view(out)[i] == out[i]@);
        lemma_entries_map_index(es, i);
        assert(data_store.saved_lines()[i] == encode_line(es[i].0, es[i].1));
        assert(data_store@.contains_key(es[i].0) && out[i]@ == encode_line(
            es[i].0,
            data_store@[es[i].0],
        ));
    }
    assert forall|k: Seq<char>| #[trigger] data_store@.contains_key(k) implies lines_view(
        out,
    ).contains(encode_line(k, data_store@[k])) by {
        lemma_entries_map_key(es, k);
        let i = choose|i: int| 0 <= i < es.len() && es[i].0 == k;
        lemma_entries_map_index(es, i);
        assert(data_store.saved_lines()[i] == encode_line(es[i].0, es[i].1));
        assert(lines_view(out)[i] == encode_line(k, data_store@[k]));
    }
}

proof fn lemma_entries_map_key(es: Seq<(Seq<char>, Seq<char>)>, k: Seq<char>)
    requires
        entries_map(es).contains_key(k),
    ensures
        exists|i: int| 0 <= i < es.len() && es[i].0 == k,
{
    if !(exists|i: int| 0 <= i < es.len() && es[i].0 == k) {
        lemma_entries_map_absent(es, k);
    }
}

proof fn lemma_entries_map_len(es: Seq<(Seq<char>, Seq<char>)>)
    requires
        keys_unique(es),
    ensures
        entries_map(es).dom().finite(),
        entries_map(es).dom().len() == es.len(),
    decreases es.len(),
{
    if es.len() > 0 {
        let dl = es.drop_last();
        assert(keys_unique(dl));
        lemma_entries_map_len(dl);
        assert(forall|i: int| 0 <= i < dl.len() ==> es[i] == dl[i]);
        lemma_entries_map_absent(dl, es.last().0);
        assert(entries_map(es).dom() =~= entries_map(dl).dom().insert(es.last().0));
    }
}

proof fn lemma_entries_map_index(es: Seq<(Seq<char>, Seq<char>)>, i: int)
    requires
        keys_unique(es),
        0 <= i < es.len(),
    ensures
        entries_map(es).contains_key(es[i].0),
        entries_map(es)[es[i].0] == es[i].1,
    decreases es.len(),
{
    if i < es.len() - 1 {
        lemma_entries_map_index(es.drop_last(), i);
    }
}

proof fn lemma_entries_map_update(es: Seq<(Seq<char>, Seq<char>)>, i: int, v: Seq<char>)
    requires
        keys_unique(es),
        0 <= i < es.len(),
    ensures
        keys_unique(es.update(i, (es[i].0, v))),
        entries_map(es.update(i, (es[i].0, v))) == entries_map(es).insert(es[i].0, v),
    decreases es.len(),
{
    let us = es.update(i, (es[i].0, v));
    let k = es[i].0;
    if i == es.len() - 1 {
        assert(us.drop_last() =~= es.drop_last());
        assert(entries_map(us) =~= entries_map(es).insert(k, v));
    } else {
        assert(us.drop_last() =~= es.drop_last().update(i, (k, v)));
        lemma_entries_map_update(es.drop_last(), i, v);
        assert(entries_map(us) =~= entries_map(es).insert(k, v));
    }
}

proof fn lemma_entries_map_remove(es: Seq<(Seq<char>, Seq<char>)>, i: int)
    requires
        keys_unique(es),
        0 <= i < es.len(),
    ensures
        keys_unique(es.remove(i)),
        entries_map(es.remove(i)) == entries_map(es).remove(es[i].0),
    decreases es.len(),
{
    let rs = es.remove(i);
    let k = es[i].0;
    if i == es.len() - 1 {
        assert(rs =~= es.drop_last());
        lemma_entries_map_absent(es.drop_last(), k);
        assert(entries_map(rs) =~= entries_map(es).remove(k));
    } else {
        assert(rs.drop_last() =~= es.drop_last().remove(i));
        lemma_entries_map_remove(es.drop_last(), i);
        assert(entries_map(rs) =~= entries_map(es).remove(k));
    }
}

} // verus!
