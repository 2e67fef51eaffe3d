//! The taxon set and the selection map: the taxon set holds the
//! taxon identifiers to keep, and the selection map holds one entry per
//! selected read identifier, the last writer winning on duplicates.

use vstd::prelude::*;

use crate::scan::bytes_eq;

verus! {

/// One selected classification line: the read identifier and its retained
/// fields.
pub struct KoutputEntry {
    pub id: Vec<u8>,
    pub length: Vec<u8>,
    pub taxid: Vec<u8>,
    pub lca: Vec<u8>,
}

/// The model of an entry.
pub ghost struct KoutputEntryModel {
    pub id: Seq<u8>,
    pub length: Seq<u8>,
    pub taxid: Seq<u8>,
    pub lca: Seq<u8>,
}

/// The value stored against a read identifier: the retained fields.
pub ghost struct KoutputInfo {
    pub length: Seq<u8>,
    pub taxid: Seq<u8>,
    pub lca: Seq<u8>,
}

impl View for KoutputEntry {
    type V = KoutputEntryModel;

    open spec fn view(&self) -> KoutputEntryModel {
        KoutputEntryModel { id: self.id@, length: self.length@, taxid: self.taxid@, lca: self.lca@ }
    }
}

impl KoutputEntryModel {
    /// The fields an entry stores against its identifier.
    pub open spec fn info(self) -> KoutputInfo {
        KoutputInfo { length: self.length, taxid: self.taxid, lca: self.lca }
    }
}

/// The models of a sequence of entries.
pub open spec fn entry_models(es: Seq<KoutputEntry>) -> Seq<KoutputEntryModel> {
    es.map_values(|e: KoutputEntry| e@)
}

/// The map a sequence of entries builds, inserted in order, so that on a
/// repeated identifier the last entry wins.
pub open spec fn map_of(es: Seq<KoutputEntryModel>) -> Map<Seq<u8>, KoutputInfo>
    decreases es.len(),
{
    if es.len() == 0 {
        Map::empty()
    } else {
        map_of(es.drop_last()).insert(es.last().id, es.last().info())
    }
}

/// The domain of `map_of` is exactly the set of entry identifiers.
pub proof fn lemma_map_of_dom(es: Seq<KoutputEntryModel>, k: Seq<u8>)
    ensures
        map_of(es).dom().contains(k) <==> exists|i: int| 0 <= i < es.len() && (#[trigger] es[i]).id
            == k,
    decreases es.len(),
{
    if es.len() > 0 {
        lemma_map_of_dom(es.drop_last(), k);
        if es.last().id == k {
            assert(es[es.len() - 1].id == k);
        } else if map_of(es).dom().contains(k) {
            let i = choose|i: int| 0 <= i < es.len() - 1 && (#[trigger] es.drop_last()[i]).id == k;
            assert(es[i].id == k);
        } else {
            assert forall|i: int| 0 <= i < es.len() && (#[trigger] es[i]).id == k implies false by {
                assert(es.drop_last()[i].id == k);
            }
        }
    }
}

/// `map_of` stores, against each identifier, the fields of the last entry
/// carrying it.
pub proof fn lemma_map_of_last(es: Seq<KoutputEntryModel>, i: int)
    requires
        0 <= i < es.len(),
        forall|j: int| i < j < es.len() ==> (#[trigger] es[j]).id != es[i].id,
    ensures
        map_of(es).dom().contains(es[i].id),
        map_of(es)[es[i].id] == es[i].info(),
    decreases es.len(),
{
    if i == es.len() - 1 {
    } else {
        assert(es.drop_last()[i] == es[i]);
        lemma_map_of_last(es.drop_last(), i);
    }
}

/// The taxon set: a finite set of byte strings, membership-tested
/// per classification line.
pub struct TaxonSet {
    items: Vec<Vec<u8>>,
}

impl View for TaxonSet {
    type V = Set<Seq<u8>>;

    closed spec fn view(&self) -> Set<Seq<u8>> {
        Set::new(|k: Seq<u8>| exists|i: int| 0 <= i < self.items@.len() && (#[trigger] self.items@[i])@ == k)
    }
}

impl TaxonSet {
    /// An empty taxon set.
    pub fn new() -> (r: TaxonSet)
        ensures
            r@ == Set::<Seq<u8>>::empty(),
    {
        let r = TaxonSet { items: Vec::new() };
        proof {
            assert(r@ =~= Set::<Seq<u8>>::empty());
        }
        r
    }

    /// Adds one taxon identifier.
    pub fn insert(&mut self, item: Vec<u8>)
        ensures
            final(self)@ == old(self)@.insert(item@),
    {
        let ghost before = self.items@;
        self.items.push(item);
        proof {
            assert forall|k: Seq<u8>| final(self)@.contains(k) implies old(self)@.insert(
                item@,
            ).contains(k) by {
                let i = choose|i: int| 0 <= i < self.items@.len() && (#[trigger] self.items@[i])@
                    == k;
                if i < before.len() {
                    assert(before[i]@ == k);
                }
            }
            assert forall|k: Seq<u8>| old(self)@.insert(item@).contains(k) implies final(self)@.contains(k) by {
                if k == item@ {
                    assert(self.items@[self.items@.len() - 1]@ == k);
                } else {
                    let i = choose|i: int| 0 <= i < before.len() && (#[trigger] before[i])@ == k;
                    assert(self.items@[i]@ == k);
                }
            }
            assert(final(self)@ =~= old(self)@.insert(item@));
        }
    }

    /// Builds the taxon set holding exactly the given items.
    pub fn from_items(items: Vec<Vec<u8>>) -> (r: TaxonSet)
        ensures
            forall|k: Seq<u8>| #[trigger] r@.contains(k) <==> exists|i: int|
                0 <= i < items@.len() && (#[trigger] items@[i])@ == k,
    {
        TaxonSet { items }
    }

    /// Whether `key` is in the set.
    pub fn contains(&self, key: &[u8]) -> (r: bool)
        ensures
            r == self@.contains(key@),
    {
        let mut i: usize = 0;
        while i < self.items.len()
            invariant
                i <= self.items@.len(),
                forall|j: int| 0 <= j < i ==> (#[trigger] self.items@[j])@ != key@,
            decreases self.items@.len() - i,
        {
            if bytes_eq(self.items[i].as_slice(), key) {
                assert(self.items@[i as int]@ == key@);
                return true;
            }
            i += 1;
        }
        assert(!self@.contains(key@));
        false
    }
}

/// The selection map, keyed by read identifier. Entries are kept in arrival
/// order; a repeated identifier shadows the earlier entry, so the last
/// writer wins.
pub struct SelectionMap {
    entries: Vec<KoutputEntry>,
}

impl View for SelectionMap {
    type V = Map<Seq<u8>, KoutputInfo>;

    closed spec fn view(&self) -> Map<Seq<u8>, KoutputInfo> {
        map_of(entry_models(self.entries@))
    }
}

impl SelectionMap {
    /// An empty selection map.
    pub fn new() -> (r: SelectionMap)
        ensures
            r@ == Map::<Seq<u8>, KoutputInfo>::empty(),
    {
        SelectionMap { entries: Vec::new() }
    }

    /// Adds one entry; on a repeated identifier the new entry wins.
    pub fn insert(&mut self, entry: KoutputEntry)
        ensures
            final(self)@ == old(self)@.insert(entry@.id, entry@.info()),
    {
        let ghost before = entry_models(self.entries@);
        self.entries.push(entry);
        proof {
            assert(entry_models(self.entries@) =~= before.push(entry@));
            assert(before.push(entry@).drop_last() =~= before);
        }
    }

    /// Builds the map of all given entries, in order.
    pub fn from_entries(entries: Vec<KoutputEntry>) -> (r: SelectionMap)
        ensures
            r@ == map_of(entry_models(entries@)),
    {
        SelectionMap { entries }
    }

    /// Whether a read identifier was selected.
    pub fn contains_id(&self, id: &[u8]) -> (r: bool)
        ensures
            r == self@.dom().contains(id@),
    {
        let ghost es = entry_models(self.entries@);
        let mut i: usize = 0;
        proof {
            lemma_map_of_dom(es, id@);
        }
        while i < self.entries.len()
            invariant
                i <= self.entries@.len(),
                es == entry_models(self.entries@),
                forall|j: int| 0 <= j < i ==> (#[trigger] es[j]).id != id@,
            decreases self.entries@.len() - i,
        {
            if bytes_eq(self.entries[i].id.as_slice(), id) {
                assert(es[i as int].id == id@);
                proof {
                    lemma_map_of_dom(es, id@);
                }
                return true;
            }
            i += 1;
        }
        proof {
            lemma_map_of_dom(es, id@);
        }
        false
    }

    /// The entry a read identifier is mapped to, if any: the last one
    /// inserted under it.
    pub fn get(&self, id: &[u8]) -> (r: Option<&KoutputEntry>)
        ensures
            match r {
                Some(e) => self@.dom().contains(id@) && e@.id == id@ && e@.info() == self@[id@],
                None => !self@.dom().contains(id@),
            },
    {
        let ghost es = entry_models(self.entries@);
        let mut i: usize = self.entries.len();
        while i > 0
            invariant
                i <= self.entries@.len(),
                es == entry_models(self.entries@),
                forall|j: int| i <= j < es.len() ==> (#[trigger] es[j]).id != id@,
            decreases i,
        {
            i -= 1;
            if bytes_eq(self.entries[i].id.as_slice(), id) {
                proof {
                    lemma_map_of_last(es, i as int);
                }
                return Some(&self.entries[i]);
            }
        }
        proof {
            lemma_map_of_dom(es, id@);
        }
        None
    }

    /// Whether the map holds no entry at all.
    pub fn is_empty(&self) -> (r: bool)
        ensures
            r == (self@ == Map::<Seq<u8>, KoutputInfo>::empty()),
    {
        let ghost es = entry_models(self.entries@);
        if self.entries.len() == 0 {
            assert(self@ =~= Map::<Seq<u8>, KoutputInfo>::empty());
            true
        } else {
            proof {
                lemma_map_of_dom(es, es.last().id);
                assert(es[es.len() - 1].id == es.last().id);
                assert(self@.dom().contains(es.last().id));
            }
            false
        }
    }
}

}
