//! Cross-reference tables: where each indirect object of a file lies.

use std::collections::BTreeMap;
use vstd::prelude::*;
use crate::format::{fixed_digits, decimal, push_fixed_digits, push_decimal};

verus! {

broadcast use vstd::std_specs::btree::group_btree_axioms;

/// How the cross-reference data of a file is stored.
#[derive(Debug, Clone, Copy, PartialEq, Eq, Structural)]
pub enum XrefType {
    /// Cross-Reference Streams are supported beginning with PDF 1.5.
    CrossReferenceStream,
    /// Cross-Reference Table is older but still frequently used.
    CrossReferenceTable,
}

/// One entry of a cross-reference table.
#[derive(Debug, Clone, Copy, PartialEq, Eq, Structural)]
pub enum XrefEntry {
    Free,
    UnusableFree,
    Normal { offset: u32, generation: u16 },
    Compressed { container: u32, index: u16 },
}

/// The cross-reference data of a file.
#[derive(Debug)]
pub struct Xref {
    /// Type of Cross-Reference used in the last incremental version.
    /// This method of cross-referencing will also be used when saving the file.
    pub cross_reference_type: XrefType,
    /// Entries for indirect object.
    pub entries: BTreeMap<u32, XrefEntry>,
    /// Total number of entries (including free entries), equal to the highest object number plus 1.
    pub size: u32,
}

/// A run of consecutive entries of a cross-reference table.
#[derive(Debug, Clone)]
pub struct XrefSection {
    pub starting_id: u32,
    pub entries: Vec<XrefEntry>,
}

/// The line that stands for `entry` in a cross-reference table: a ten-digit
/// offset, a five-digit generation, `n` or `f`, a space and a line feed.
pub open spec fn xref_entry_line(entry: XrefEntry) -> Seq<u8> {
    let (offset, generation, kind) = match entry {
        XrefEntry::Normal { offset, generation } => (offset as nat, generation as nat, 110u8),
        XrefEntry::Compressed { .. } => (0nat, 65535nat, 102u8),
        XrefEntry::Free => (0nat, 0nat, 102u8),
        XrefEntry::UnusableFree => (0nat, 65535nat, 102u8),
    };
    fixed_digits(offset, 10) + seq![32u8] + fixed_digits(generation, 5) + seq![32u8, kind, 32u8, 10u8]
}

/// The lines of the entries `entries`, one after the other.
pub open spec fn xref_entry_lines(entries: Seq<XrefEntry>) -> Seq<u8>
    decreases entries.len(),
{
    if entries.len() == 0 {
        Seq::empty()
    } else {
        xref_entry_lines(entries.drop_last()) + xref_entry_line(entries.last())
    }
}

/// A section of a cross-reference table: its first object number and entry
/// count on a line, then its entries; nothing for a section without entries.
pub open spec fn xref_section_text(starting_id: u32, entries: Seq<XrefEntry>) -> Seq<u8> {
    if entries.len() == 0 {
        Seq::empty()
    } else {
        decimal(starting_id as nat) + seq![32u8] + decimal(entries.len()) + seq![10u8] + xref_entry_lines(entries)
    }
}

impl Xref {
    pub fn new(size: u32, xref_type: XrefType) -> (r: Xref)
        ensures
            r.size == size,
            r.cross_reference_type == xref_type,
            r.entries@ == Map::<u32, XrefEntry>::empty(),
    {
        Xref { cross_reference_type: xref_type, entries: BTreeMap::new(), size }
    }

    pub fn get(&self, id: u32) -> (r: Option<&XrefEntry>)
        ensures
            r == (if self.entries@.contains_key(id) { Some(&self.entries@[id]) } else { None }),
    {
        self.entries.get(&id)
    }

    pub fn insert(&mut self, id: u32, entry: XrefEntry)
        ensures
            final(self).entries@ == old(self).entries@.insert(id, entry),
            final(self).size == old(self).size,
            final(self).cross_reference_type == old(self).cross_reference_type,
    {
        self.entries.insert(id, entry);
    }

    /// Combine Xref entries. Only add them if they do not exists already.
    /// Do not replace existing entries.
    pub fn merge(&mut self, xref: Xref)
        ensures
            final(self).entries@ == xref.entries@.union_prefer_right(old(self).entries@),
            final(self).size == old(self).size,
            final(self).cross_reference_type == old(self).cross_reference_type,
    {
        let ghost start = self.entries@;
        for kv in it: xref.entries.iter()
            invariant
                self.entries@ == Map::new(
                    |k: u32| start.contains_key(k) || exists|j: int| 0 <= j < it.index() && *it.seq()[j].0 == k,
                    |k: u32| if start.contains_key(k) { start[k] } else { xref.entries@[k] },
                ),
                self.size == old(self).size,
                self.cross_reference_type == old(self).cross_reference_type,
                forall|j: int| 0 <= j < it.seq().len() ==> #[trigger] xref.entries@.contains_key(*it.seq()[j].0)
                    && xref.entries@[*it.seq()[j].0] == *it.seq()[j].1,
        {
            let (id, entry) = kv;
            let ghost i = it.index();
            assert(*it.seq()[i].0 == *id && *it.seq()[i].1 == *entry);
            if !self.entries.contains_key(id) {
                self.entries.insert(*id, *entry);
            }
            assert(self.entries@ =~= Map::new(
                    |k: u32| start.contains_key(k) || exists|j: int| 0 <= j < i + 1 && *it.seq()[j].0 == k,
                    |k: u32| if start.contains_key(k) { start[k] } else { xref.entries@[k] },
                ));
        }
        assert(self.entries@ =~= xref.entries@.union_prefer_right(start));
    }

    pub fn clear(&mut self)
        ensures
            final(self).entries@ == Map::<u32, XrefEntry>::empty(),
            final(self).size == old(self).size,
            final(self).cross_reference_type == old(self).cross_reference_type,
    {
        self.entries.clear()
    }

    /// The highest object number with an entry, or 0 when there is none.
    pub fn max_id(&self) -> (r: u32)
        ensures
            self.entries@.dom().len() == 0 ==> r == 0,
            self.entries@.dom().len() > 0 ==> self.entries@.contains_key(r),
            forall|k: u32| self.entries@.contains_key(k) ==> k <= r,
    {
        let mut best: u32 = 0;
        let mut found = false;
        for k in it: self.entries.keys()
            invariant
                found ==> self.entries@.contains_key(best),
                !found ==> best == 0,
                forall|j: int| 0 <= j < it.index() ==> *it.seq()[j] <= best,
                found <==> it.index() > 0,
                it.seq().unref().to_set() == self.entries@.dom(),
        {
            if !found || *k > best {
                best = *k;
            }
            found = true;
        }
        best
    }
}


impl XrefEntry {
    pub fn is_normal(&self) -> (r: bool)
        ensures
            r == (*self is Normal),
    {
        matches!(*self, XrefEntry::Normal { .. })
    }

    pub fn is_compressed(&self) -> (r: bool)
        ensures
            r == (*self is Compressed),
    {
        matches!(*self, XrefEntry::Compressed { .. })
    }

    /// Write Entry in Cross Reference Table.
    pub fn write_xref_entry(&self, file: &mut Vec<u8>)
        ensures
            final(file)@ == old(file)@ + xref_entry_line(*self),
    {
        let (offset, generation, kind): (u32, u16, u8) = match *self {
            XrefEntry::Normal { offset, generation } => (offset, generation, 110u8), // 'n'
            XrefEntry::Compressed { .. } => (0, 65535, 102u8), // 'f'
            XrefEntry::Free => (0, 0, 102u8),
            XrefEntry::UnusableFree => (0, 65535, 102u8),
        };
        push_fixed_digits(file, offset as u64, 10);
        file.push(32u8);
        push_fixed_digits(file, generation as u64, 5);
        file.push(32u8);
        file.push(kind);
        file.push(32u8);
        file.push(10u8);
        assert(final(file)@ =~= old(file)@ + xref_entry_line(*self));
    }
}

impl XrefSection {
    pub fn new(starting_id: u32) -> (r: Self)
        ensures
            r.starting_id == starting_id,
            r.entries@ == Seq::<XrefEntry>::empty(),
    {
        XrefSection { starting_id, entries: Vec::new() }
    }

    pub fn add_entry(&mut self, entry: XrefEntry)
        ensures
            final(self).entries@ == old(self).entries@.push(entry),
            final(self).starting_id == old(self).starting_id,
    {
        self.entries.push(entry);
    }

    pub fn add_unusable_free_entry(&mut self)
        ensures
            final(self).entries@ == old(self).entries@.push(XrefEntry::UnusableFree),
            final(self).starting_id == old(self).starting_id,
    {
        self.add_entry(XrefEntry::UnusableFree);
    }

    pub fn is_empty(&self) -> (r: bool)
        ensures
            r == (self.entries@.len() == 0),
    {
        self.entries.is_empty()
    }

    /// Write Section in Cross Reference Table.
    pub fn write_xref_section(&self, file: &mut Vec<u8>)
        ensures
            final(file)@ == old(file)@ + xref_section_text(self.starting_id, self.entries@),
    {
        if !self.is_empty() {
            push_decimal(file, self.starting_id as u64);
            file.push(32u8);
            push_decimal(file, self.entries.len() as u64);
            file.push(10u8);
            let ghost head = file@;
            let mut i: usize = 0;
            while i < self.entries.len()
                invariant
                    i <= self.entries@.len(),
                    file@ == head + xref_entry_lines(self.entries@.subrange(0, i as int)),
                decreases self.entries@.len() - i,
            {
                self.entries[i].write_xref_entry(file);
                i = i + 1;
                assert(self.entries@.subrange(0, i as int).drop_last() =~= self.entries@.subrange(0, i - 1));
            }
            assert(self.entries@.subrange(0, i as int) =~= self.entries@);
            assert(final(file)@ =~= old(file)@ + xref_section_text(self.starting_id, self.entries@));
        }
    }
}

/// Reading an entry back after `insert` gives the inserted entry.
pub proof fn lemma_xref_get_after_insert(entries: Map<u32, XrefEntry>, id: u32, entry: XrefEntry)
    ensures
        entries.insert(id, entry).contains_key(id),
        entries.insert(id, entry)[id] == entry,
        forall|k: u32| k != id ==> entries.insert(id, entry).contains_key(k) == entries.contains_key(k),
{
}

/// `merge` never replaces an entry that was already there, and adds every
/// entry of the other table that was missing.
pub proof fn lemma_xref_merge_keeps_existing(mine: Map<u32, XrefEntry>, other: Map<u32, XrefEntry>)
    ensures
        forall|k: u32| mine.contains_key(k) ==> #[trigger] other.union_prefer_right(mine)[k] == mine[k],
        forall|k: u32| !mine.contains_key(k) && other.contains_key(k) ==> #[trigger] other.union_prefer_right(mine)[k] == other[k],
        other.union_prefer_right(mine).dom() == mine.dom().union(other.dom()),
{
    assert(other.union_prefer_right(mine).dom() =~= mine.dom().union(other.dom()));
}

} // verus!
