//! The per-message compression dictionary: label-sequence suffixes mapped to
//! the byte offset at which each suffix first appeared in the message being
//! built. The view is a `Map` from lower-cased label texts to offsets.

use vstd::prelude::*;

use crate::label::DomainLabel;
use crate::name::{label_views, lower_texts};
use crate::types::DomainPointer;
use crate::wire::{label_wire, labels_wire, lemma_labels_wire_split, lemma_labels_wire_take_succ};

verus! {

/// The dictionary key of a run of labels: its lower-cased texts, since names
/// compare case-insensitively.
pub open spec fn labels_key(ls: Seq<DomainLabel>) -> Seq<Seq<u8>> {
    lower_texts(label_views(ls))
}

/// Keying commutes with taking a suffix of the labels.
pub proof fn lemma_labels_key_skip(ls: Seq<DomainLabel>, i: int)
    requires
        0 <= i <= ls.len(),
    ensures
        labels_key(ls).skip(i) == labels_key(ls.skip(i)),
{
    assert(labels_key(ls).skip(i) =~= labels_key(ls.skip(i)));
}

/// The first index `s` at or after `i` whose key suffix `ks.skip(s)` is
/// already in the map, or `ks.len()` when no suffix is. Walking from the full
/// sequence down makes compression prefer the longest common suffix.
pub open spec fn match_from(m: Map<Seq<Seq<u8>>, u16>, ks: Seq<Seq<u8>>, i: int) -> int
    decreases ks.len() - i,
{
    if i >= ks.len() {
        ks.len() as int
    } else if m.contains_key(ks.skip(i)) {
        i
    } else {
        match_from(m, ks, i + 1)
    }
}

pub proof fn lemma_match_from_bounds(m: Map<Seq<Seq<u8>>, u16>, ks: Seq<Seq<u8>>, i: int)
    requires
        0 <= i <= ks.len(),
    ensures
        i <= match_from(m, ks, i) <= ks.len(),
        match_from(m, ks, i) < ks.len() ==> m.contains_key(ks.skip(match_from(m, ks, i))),
        forall|j: int| i <= j < match_from(m, ks, i) ==> !m.contains_key(ks.skip(j)),
    decreases ks.len() - i,
{
    if i < ks.len() && !m.contains_key(ks.skip(i)) {
        lemma_match_from_bounds(m, ks, i + 1);
    }
}

/// The map after an insertion pass: suffixes from `i` on are inserted at the
/// rolling offset until one is already present, at which point the pass stops.
pub open spec fn insert_from(
    m: Map<Seq<Seq<u8>>, u16>,
    ks: Seq<Seq<u8>>,
    off: int,
    i: int,
) -> Map<Seq<Seq<u8>>, u16>
    decreases ks.len() - i,
{
    if i >= ks.len() || m.contains_key(ks.skip(i)) {
        m
    } else {
        insert_from(m.insert(ks.skip(i), off as u16), ks, off + ks[i].len() + 1, i + 1)
    }
}

/// Suffixes at different starting indices are different keys, so an insertion
/// at one index never disturbs the walk over later indices.
pub proof fn lemma_match_from_insert(
    m: Map<Seq<Seq<u8>>, u16>,
    ks: Seq<Seq<u8>>,
    i: int,
    j: int,
    v: u16,
)
    requires
        0 <= i < j <= ks.len(),
    ensures
        match_from(m.insert(ks.skip(i), v), ks, j) == match_from(m, ks, j),
    decreases ks.len() - j,
{
    if j < ks.len() {
        assert(ks.skip(i).len() != ks.skip(j).len());
        lemma_match_from_insert(m, ks, i, j + 1, v);
    }
}

/// What an insertion pass produces: exactly the suffixes from `i` up to the
/// first one already present are added, each at the rolling offset; existing
/// records are untouched.
pub proof fn lemma_insert_from_spec(m: Map<Seq<Seq<u8>>, u16>, ks: Seq<Seq<u8>>, off: int, i: int)
    requires
        0 <= i <= ks.len(),
        0 <= off,
        off + labels_wire(ks.skip(i)).len() <= 0x4000,
    ensures
        ({
            let s = match_from(m, ks, i);
            let m2 = insert_from(m, ks, off, i);
            &&& forall|k: Seq<Seq<u8>>|
                #[trigger] m2.contains_key(k) <==> (m.contains_key(k) || exists|j: int|
                    i <= j < s && k == ks.skip(j))
            &&& forall|k: Seq<Seq<u8>>|
                m.contains_key(k) ==> m2.contains_key(k) && #[trigger] m2[k] == m[k]
            &&& forall|j: int|
                i <= j < s ==> m2.contains_key(ks.skip(j)) && #[trigger] m2[ks.skip(j)] == off
                    + labels_wire(ks.subrange(i, j)).len()
        }),
    decreases ks.len() - i,
{
    let s = match_from(m, ks, i);
    let m2 = insert_from(m, ks, off, i);
    if i >= ks.len() || m.contains_key(ks.skip(i)) {
        assert(s == i);
        assert(m2 == m);
    } else {
        let m1 = m.insert(ks.skip(i), off as u16);
        let off1 = off + ks[i].len() + 1;
        assert(labels_wire(ks.skip(i)) == label_wire(ks[i]) + labels_wire(ks.skip(i + 1))) by {
            assert(ks.skip(i).len() >= 1);
            assert(ks.skip(i)[0] == ks[i]);
            assert(ks.skip(i).drop_first() =~= ks.skip(i + 1));
        }
        lemma_match_from_insert(m, ks, i, i + 1, off as u16);
        lemma_match_from_bounds(m, ks, i + 1);
        lemma_insert_from_spec(m1, ks, off1, i + 1);
        let s1 = match_from(m1, ks, i + 1);
        assert(s1 == match_from(m, ks, i + 1));
        assert(s == s1);
        assert(m2 == insert_from(m1, ks, off1, i + 1));
        // membership
        assert forall|k: Seq<Seq<u8>>| #[trigger] m2.contains_key(k) implies (m.contains_key(k)
            || exists|j: int| i <= j < s && k == ks.skip(j)) by {
            if m1.contains_key(k) {
                if k == ks.skip(i) {
                    assert(i <= i < s && k == ks.skip(i));
                } else {
                    assert(m.contains_key(k));
                }
            } else {
                let j = choose|j: int| i + 1 <= j < s1 && k == ks.skip(j);
                assert(i <= j < s && k == ks.skip(j));
            }
        }
        assert forall|k: Seq<Seq<u8>>|
            m.contains_key(k) || (exists|j: int|
                i <= j < s && k == ks.skip(j)) implies #[trigger] m2.contains_key(k) by {
            if m.contains_key(k) {
                assert(m1.contains_key(k));
            } else {
                let j = choose|j: int| i <= j < s && k == ks.skip(j);
                if j == i {
                    assert(m1.contains_key(k));
                } else {
                    assert(i + 1 <= j < s1 && k == ks.skip(j));
                }
            }
        }
        // existing records untouched
        assert forall|k: Seq<Seq<u8>>| m.contains_key(k) implies m2.contains_key(k)
            && #[trigger] m2[k] == m[k] by {
            assert(k != ks.skip(i));
            assert(m1.contains_key(k) && m1[k] == m[k]);
        }
        // offsets of the new records
        assert forall|j: int| i <= j < s implies m2.contains_key(ks.skip(j))
            && #[trigger] m2[ks.skip(j)] == off + labels_wire(ks.subrange(i, j)).len() by {
            if j == i {
                assert(m1.contains_key(ks.skip(i)) && m1[ks.skip(i)] == off as u16);
                assert(m2[ks.skip(i)] == off as u16);
                assert(labels_wire(ks.subrange(i, i)) =~= Seq::<u8>::empty()) by {
                    assert(ks.subrange(i, i) =~= Seq::<Seq<u8>>::empty());
                }
            } else {
                assert(m2[ks.skip(j)] == off1 + labels_wire(ks.subrange(i + 1, j)).len());
                assert(labels_wire(ks.subrange(i, j)) == label_wire(ks[i]) + labels_wire(
                    ks.subrange(i + 1, j),
                )) by {
                    assert(ks.subrange(i, j).len() >= 1);
                    assert(ks.subrange(i, j)[0] == ks[i]);
                    assert(ks.subrange(i, j).drop_first() =~= ks.subrange(i + 1, j));
                }
            }
        }
    }
}

/// Longest-suffix preference: the walk from the full sequence down stops at
/// or before any recorded suffix, so compression always picks the match that
/// leaves the fewest labels uncovered.
pub proof fn lemma_longest_suffix_preference(m: Map<Seq<Seq<u8>>, u16>, ks: Seq<Seq<u8>>, i: int)
    requires
        0 <= i < ks.len(),
        m.contains_key(ks.skip(i)),
    ensures
        0 <= match_from(m, ks, 0) <= i,
        m.contains_key(ks.skip(match_from(m, ks, 0))),
{
    lemma_match_from_bounds(m, ks, 0);
}

/// One record of the dictionary: a run of labels and the offset of its first
/// appearance.
struct MapEntry {
    labels: Vec<DomainLabel>,
    offset: u16,
}

spec fn entry_key(e: MapEntry) -> Seq<Seq<u8>> {
    labels_key(e.labels@)
}

spec fn map_of(entries: Seq<MapEntry>) -> Map<Seq<Seq<u8>>, u16>
    decreases entries.len(),
{
    if entries.len() == 0 {
        Map::empty()
    } else {
        map_of(entries.drop_last()).insert(entry_key(entries.last()), entries.last().offset)
    }
}

proof fn lemma_map_of_contains(entries: Seq<MapEntry>, k: Seq<Seq<u8>>)
    ensures
        map_of(entries).contains_key(k) <==> exists|i: int|
            0 <= i < entries.len() && entry_key(entries[i]) == k,
    decreases entries.len(),
{
    if entries.len() > 0 {
        lemma_map_of_contains(entries.drop_last(), k);
        if entry_key(entries.last()) == k {
            assert(entry_key(entries[entries.len() - 1]) == k);
        } else {
            if exists|i: int| 0 <= i < entries.len() && entry_key(entries[i]) == k {
                let i = choose|i: int| 0 <= i < entries.len() && entry_key(entries[i]) == k;
                assert(i < entries.len() - 1);
                assert(entry_key(entries.drop_last()[i]) == k);
            }
            if exists|i: int| 0 <= i < entries.drop_last().len() && entry_key(
                entries.drop_last()[i],
            ) == k {
                let i = choose|i: int|
                    0 <= i < entries.drop_last().len() && entry_key(entries.drop_last()[i]) == k;
                assert(entry_key(entries[i]) == k);
            }
        }
    }
}

proof fn lemma_map_of_get(entries: Seq<MapEntry>, i: int)
    requires
        0 <= i < entries.len(),
        forall|a: int, b: int|
            0 <= a < b < entries.len() ==> entry_key(#[trigger] entries[a]) != entry_key(
                #[trigger] entries[b],
            ),
    ensures
        map_of(entries).contains_key(entry_key(entries[i])),
        map_of(entries)[entry_key(entries[i])] == entries[i].offset,
    decreases entries.len(),
{
    if i == entries.len() - 1 {
    } else {
        lemma_map_of_get(entries.drop_last(), i);
        assert(entry_key(entries[i]) != entry_key(entries[entries.len() - 1]));
    }
}

/// The outcome of inserting a run of labels into the map.
pub struct LabelMapInsertOutcome {
    /// How many suffixes were newly inserted.
    pub inserted_records: usize,
    /// The rolling offset after the inserted suffixes.
    pub new_offset: u16,
    /// The leading labels that were not inserted because a suffix starting
    /// there was already present; empty when every suffix was new.
    pub remaining_labels: Vec<DomainLabel>,
}

/// The per-message dictionary from label-sequence suffixes to the offset of
/// their first appearance. Every stored offset fits the 14 bits of a domain
/// pointer.
pub struct LabelMap {
    entries: Vec<MapEntry>,
}

impl View for LabelMap {
    type V = Map<Seq<Seq<u8>>, u16>;

    closed spec fn view(&self) -> Map<Seq<Seq<u8>>, u16> {
        map_of(self.entries@)
    }
}

impl LabelMap {
    /// Keys are unique and every stored offset is a valid 14-bit pointer
    /// target. Constructors establish this and every method preserves it.
    pub closed spec fn wf(self) -> bool {
        &&& forall|a: int, b: int|
            0 <= a < b < self.entries@.len() ==> entry_key(#[trigger] self.entries@[a])
                != entry_key(#[trigger] self.entries@[b])
        &&& forall|a: int|
            0 <= a < self.entries@.len() ==> (#[trigger] self.entries@[a]).offset < 0x4000
    }

    /// Every offset the map hands out is a valid 14-bit pointer target.
    pub proof fn lemma_offsets_fit(&self)
        requires
            self.wf(),
        ensures
            forall|k: Seq<Seq<u8>>| self@.contains_key(k) ==> #[trigger] self@[k] < 0x4000,
    {
        Self::lemma_map_of_values(self.entries@);
    }

    proof fn lemma_map_of_values(entries: Seq<MapEntry>)
        requires
            forall|a: int| 0 <= a < entries.len() ==> (#[trigger] entries[a]).offset < 0x4000,
        ensures
            forall|k: Seq<Seq<u8>>|
                map_of(entries).contains_key(k) ==> #[trigger] map_of(entries)[k] < 0x4000,
        decreases entries.len(),
    {
        if entries.len() > 0 {
            assert forall|a: int| 0 <= a < entries.drop_last().len() implies (
            #[trigger] entries.drop_last()[a]).offset < 0x4000 by {
                assert(entries.drop_last()[a] == entries[a]);
            }
            Self::lemma_map_of_values(entries.drop_last());
            assert(entries[entries.len() - 1].offset < 0x4000);
            assert forall|k: Seq<Seq<u8>>| map_of(entries).contains_key(k) implies #[trigger] map_of(
                entries,
            )[k] < 0x4000 by {
                if k != entry_key(entries.last()) {
                    assert(map_of(entries.drop_last()).contains_key(k));
                    assert(map_of(entries.drop_last())[k] < 0x4000);
                }
            }
        }
    }

    /// An empty dictionary.
    pub fn new() -> (r: Self)
        ensures
            r@ == Map::<Seq<Seq<u8>>, u16>::empty(),
            r.wf(),
    {
        LabelMap { entries: Vec::new() }
    }

    /// Drop every record.
    pub fn clear(&mut self)
        ensures
            final(self)@ == Map::<Seq<Seq<u8>>, u16>::empty(),
            final(self).wf(),
    {
        self.entries = Vec::new();
    }

    /// Look up the offset stored for exactly this run of labels.
    pub fn get_offset(&self, labels: &[DomainLabel]) -> (r: Option<u16>)
        requires
            self.wf(),
        ensures
            match r {
                Some(off) => self@.contains_key(labels_key(labels@)) && self@[labels_key(labels@)]
                    == off,
                None => !self@.contains_key(labels_key(labels@)),
            },
    {
        let ghost k = labels_key(labels@);
        let n = self.entries.len();
        let mut i: usize = 0;
        while i < n
            invariant
                0 <= i <= n,
                n == self.entries@.len(),
                self.wf(),
                k == labels_key(labels@),
                forall|j: int| 0 <= j < i ==> entry_key(#[trigger] self.entries@[j]) != k,
            decreases n - i,
        {
            let e = &self.entries[i];
            if keys_equal(e.labels.as_slice(), labels) {
                proof {
                    lemma_map_of_get(self.entries@, i as int);
                }
                return Some(e.offset);
            }
            i += 1;
        }
        proof {
            lemma_map_of_contains(self.entries@, k);
        }
        None
    }

    /// Find the longest suffix of `labels` already recorded in the map. On a
    /// match, returns a pointer to its stored offset together with the leading
    /// labels the match does not cover (which must still be serialized
    /// literally); returns `None` when no suffix at all is recorded.
    pub fn get_domain_ptr(&self, labels: &[DomainLabel]) -> (r: Option<
        (DomainPointer, Vec<DomainLabel>),
    >)
        requires
            self.wf(),
            labels@.len() > 0,
        ensures
            ({
                let ks = labels_key(labels@);
                let s = match_from(self@, ks, 0);
                match r {
                    Some((ptr, rem)) => {
                        &&& s < ks.len()
                        &&& self@.contains_key(ks.skip(s))
                        &&& ptr@ == self@[ks.skip(s)]
                        &&& rem@.len() == s
                        &&& forall|j: int| 0 <= j < s ==> (#[trigger] rem@[j])@ == labels@[j]@
                    },
                    None => s == ks.len(),
                }
            }),
    {
        let ghost ks = labels_key(labels@);
        let n = labels.len();
        let mut remaining: Vec<DomainLabel> = Vec::new();
        let mut i: usize = 0;
        while i < n
            invariant
                0 <= i <= n,
                n == labels@.len(),
                self.wf(),
                ks == labels_key(labels@),
                remaining@.len() == i,
                forall|j: int| 0 <= j < i ==> (#[trigger] remaining@[j])@ == labels@[j]@,
                forall|j: int| 0 <= j < i ==> !self@.contains_key(#[trigger] ks.skip(j)),
            decreases n - i,
        {
            let suffix = vstd::slice::slice_subrange(labels, i, n);
            proof {
                lemma_labels_key_skip(labels@, i as int);
                assert(labels_key(suffix@) =~= labels_key(labels@.skip(i as int)));
            }
            match self.get_offset(suffix) {
                Some(off) => {
                    proof {
                        lemma_match_from_first(self@, ks, i as int);
                    }
                    return Some((DomainPointer::new(off), remaining));
                },
                None => {
                    remaining.push(labels[i].clone());
                    i += 1;
                },
            }
        }
        proof {
            lemma_match_from_first(self@, ks, n as int);
        }
        None
    }

    /// Insert the suffixes of `domain_labels` into the map: walk from the
    /// full sequence down, recording each suffix at the rolling offset, and
    /// stop at the first suffix already present — everything shorter was
    /// necessarily recorded by an earlier pass. Re-inserting a recorded
    /// suffix is thus a no-op, and a stored offset is always the first one.
    pub fn insert(&mut self, domain_labels: &[DomainLabel], offset: u16) -> (outcome:
        LabelMapInsertOutcome)
        requires
            old(self).wf(),
            domain_labels@.len() > 0,
            offset + labels_wire(label_views(domain_labels@)).len() <= 0x4000,
        ensures
            ({
                let ks = labels_key(domain_labels@);
                let s = match_from(old(self)@, ks, 0);
                &&& final(self)@ == insert_from(old(self)@, ks, offset as int, 0)
                &&& outcome.inserted_records == s
                &&& outcome.new_offset == offset + labels_wire(
                    label_views(domain_labels@).take(s),
                ).len()
                &&& outcome.remaining_labels@.len() == ks.len() - s
                &&& forall|j: int|
                    0 <= j < ks.len() - s ==> (#[trigger] outcome.remaining_labels@[j])@
                        == domain_labels@[s + j]@
            }),
            final(self).wf(),
    {
        let ghost old_m = self@;
        let ghost ks = labels_key(domain_labels@);
        let ghost views = label_views(domain_labels@);
        let n = domain_labels.len();
        let mut current_offset: u16 = offset;
        let mut i: usize = 0;
        proof {
            assert(views.take(0) =~= Seq::<Seq<u8>>::empty());
        }
        while i < n
            invariant
                0 <= i <= n,
                n == domain_labels@.len(),
                ks == labels_key(domain_labels@),
                views == label_views(domain_labels@),
                old_m == old(self)@,
                self.wf(),
                offset + labels_wire(views).len() <= 0x4000,
                current_offset == offset + labels_wire(views.take(i as int)).len(),
                match_from(old_m, ks, 0) == match_from(old_m, ks, i as int),
                insert_from(old_m, ks, offset as int, 0) == insert_from(
                    self@,
                    ks,
                    current_offset as int,
                    i as int,
                ),
                forall|j: int|
                    i <= j <= n ==> (self@.contains_key(#[trigger] ks.skip(j))
                        <==> old_m.contains_key(ks.skip(j))),
            decreases n - i,
        {
            let suffix = vstd::slice::slice_subrange(domain_labels, i, n);
            proof {
                lemma_labels_key_skip(domain_labels@, i as int);
                assert(labels_key(suffix@) =~= ks.skip(i as int));
            }
            if let Some(_) = self.get_offset(suffix) {
                proof {
                    assert(self@.contains_key(ks.skip(i as int)));
                    assert(old_m.contains_key(ks.skip(i as int)));
                    assert(match_from(old_m, ks, i as int) == i);
                    assert(match_from(old_m, ks, 0) == i);
                    assert(insert_from(self@, ks, current_offset as int, i as int) == self@);
                    assert(self@ == insert_from(old_m, ks, offset as int, 0));
                    assert(ks.len() == n);
                }
                let remaining_labels = crate::name::clone_labels_slice(suffix);
                proof {
                    lemma_match_from_bounds(old_m, ks, i as int);
                    assert forall|j: int| 0 <= j < n - i implies (
                    #[trigger] remaining_labels@[j])@ == domain_labels@[i + j]@ by {
                        assert(remaining_labels@[j]@ == suffix@[j]@);
                        assert(suffix@[j] == domain_labels@[i + j]);
                    }
                }
                return LabelMapInsertOutcome {
                    inserted_records: i,
                    new_offset: current_offset,
                    remaining_labels,
                };
            }
            proof {
                lemma_map_of_contains(self.entries@, ks.skip(i as int));
                lemma_labels_wire_split(views, i as int);
                lemma_labels_wire_take_succ(views, i as int);
                assert(labels_wire(views.skip(i as int)).len() >= 1 + views[i as int].len()) by {
                    assert(views.skip(i as int)[0] == views[i as int]);
                    assert(views.skip(i as int).len() >= 1);
                    assert(labels_wire(views.skip(i as int)) == label_wire(views[i as int])
                        + labels_wire(views.skip(i as int).drop_first()));
                }
            }
            let entry_labels = crate::name::clone_labels_slice(suffix);
            let ghost pre_entries = self.entries@;
            let ghost pre_m = self@;
            let new_entry = MapEntry { labels: entry_labels, offset: current_offset };
            proof {
                assert(entry_key(new_entry) =~= ks.skip(i as int));
                assert forall|a: int| 0 <= a < pre_entries.len() implies entry_key(
                    #[trigger] pre_entries[a],
                ) != ks.skip(i as int) by {
                    lemma_map_of_contains(pre_entries, ks.skip(i as int));
                }
            }
            self.entries.push(new_entry);
            proof {
                assert(self.entries@.drop_last() =~= pre_entries);
                assert(self.entries@.last() == new_entry);
                assert(self@ == pre_m.insert(ks.skip(i as int), current_offset));
                assert forall|j: int| i + 1 <= j <= n implies (self@.contains_key(
                    #[trigger] ks.skip(j),
                ) <==> old_m.contains_key(ks.skip(j))) by {
                    assert(ks.skip(j).len() != ks.skip(i as int).len());
                }
                assert(ks[i as int].len() == views[i as int].len());
            }
            current_offset = current_offset + (domain_labels[i].len_bytes() as u16);
            i += 1;
        }
        proof {
            assert(views.take(n as int) =~= views);
            assert(match_from(old_m, ks, n as int) == n);
        }
        let remaining_labels: Vec<DomainLabel> = Vec::new();
        LabelMapInsertOutcome {
            inserted_records: n,
            new_offset: current_offset,
            remaining_labels,
        }
    }
}

impl Default for LabelMap {
    fn default() -> (r: Self)
        ensures
            r@ == Map::<Seq<Seq<u8>>, u16>::empty(),
            r.wf(),
    {
        LabelMap::new()
    }
}

/// Two runs of labels carry the same dictionary key: equal length and
/// case-insensitively equal texts.
pub fn keys_equal(a: &[DomainLabel], b: &[DomainLabel]) -> (r: bool)
    ensures
        r == (labels_key(a@) == labels_key(b@)),
{
    if a.len() != b.len() {
        proof {
            assert(labels_key(a@).len() != labels_key(b@).len());
        }
        return false;
    }
    let n = a.len();
    let mut i: usize = 0;
    while i < n
        invariant
            0 <= i <= n,
            n == a@.len() == b@.len(),
            forall|j: int|
                0 <= j < i ==> crate::wire::lower_bytes((#[trigger] a@[j])@) == crate::wire::lower_bytes(
                    b@[j]@,
                ),
        decreases n - i,
    {
        if !a[i].eq_label(&b[i]) {
            proof {
                assert(labels_key(a@)[i as int] != labels_key(b@)[i as int]);
            }
            return false;
        }
        i += 1;
    }
    proof {
        assert(labels_key(a@) =~= labels_key(b@));
    }
    true
}

/// If no suffix before `s` is in the map and (when `s` is in range) the
/// suffix at `s` is, then `s` is where the walk from the full sequence stops.
pub proof fn lemma_match_from_first(m: Map<Seq<Seq<u8>>, u16>, ks: Seq<Seq<u8>>, s: int)
    requires
        0 <= s <= ks.len(),
        forall|j: int| 0 <= j < s ==> !m.contains_key(#[trigger] ks.skip(j)),
        s < ks.len() ==> m.contains_key(ks.skip(s)),
    ensures
        match_from(m, ks, 0) == s,
{
    lemma_match_from_step(m, ks, 0, s);
}

proof fn lemma_match_from_step(m: Map<Seq<Seq<u8>>, u16>, ks: Seq<Seq<u8>>, i: int, s: int)
    requires
        0 <= i <= s <= ks.len(),
        forall|j: int| i <= j < s ==> !m.contains_key(#[trigger] ks.skip(j)),
        s < ks.len() ==> m.contains_key(ks.skip(s)),
    ensures
        match_from(m, ks, i) == s,
    decreases s - i,
{
    if i < s {
        lemma_match_from_step(m, ks, i + 1, s);
    }
}

} // verus!
