use vstd::prelude::*;
use crate::errors::MetadataValueConversionError;
use crate::keyed::{
    distinct, first_index, is_first, lemma_first_index, lemma_first_index_absent,
    lemma_first_index_found, same_text,
};

verus! {

/// A stored metadata value. A `Float` holds the bit pattern of a
/// double-precision number, so that values compare exactly.
#[derive(Clone, Debug, PartialEq)]
pub enum MetadataValue {
    Int(i32),
    Float(u64),
    Str(String),
}

/// A value of a metadata patch: a new value for the key, or the marker that
/// removes the key.
#[derive(Clone, Debug, PartialEq)]
pub enum UpdateMetadataValue {
    Int(i32),
    Float(u64),
    Str(String),
    Tombstone,
}

/// A stored metadata value as a plain value.
pub enum MetadataValueView {
    Int(i32),
    Float(u64),
    Str(Seq<char>),
}

/// A patch value as a plain value.
pub enum UpdateMetadataValueView {
    Int(i32),
    Float(u64),
    Str(Seq<char>),
    Tombstone,
}

/// Stored metadata as plain values: keys with their values, in order.
pub type MetadataEntries = Seq<(Seq<char>, MetadataValueView)>;

/// A metadata patch as plain values: keys with what they are set to, in order.
pub type PatchEntries = Seq<(Seq<char>, UpdateMetadataValueView)>;

impl View for MetadataValue {
    type V = MetadataValueView;

    open spec fn view(&self) -> MetadataValueView {
        match self {
            MetadataValue::Int(i) => MetadataValueView::Int(*i),
            MetadataValue::Float(f) => MetadataValueView::Float(*f),
            MetadataValue::Str(s) => MetadataValueView::Str(s@),
        }
    }
}

impl View for UpdateMetadataValue {
    type V = UpdateMetadataValueView;

    open spec fn view(&self) -> UpdateMetadataValueView {
        match self {
            UpdateMetadataValue::Int(i) => UpdateMetadataValueView::Int(*i),
            UpdateMetadataValue::Float(f) => UpdateMetadataValueView::Float(*f),
            UpdateMetadataValue::Str(s) => UpdateMetadataValueView::Str(s@),
            UpdateMetadataValue::Tombstone => UpdateMetadataValueView::Tombstone,
        }
    }
}

/// The stored value that a patch value stands for; a tombstone stands for none.
pub open spec fn stored_value(v: UpdateMetadataValueView) -> Option<MetadataValueView> {
    match v {
        UpdateMetadataValueView::Int(i) => Some(MetadataValueView::Int(i)),
        UpdateMetadataValueView::Float(f) => Some(MetadataValueView::Float(f)),
        UpdateMetadataValueView::Str(s) => Some(MetadataValueView::Str(s)),
        UpdateMetadataValueView::Tombstone => None,
    }
}

/// The keys of an entry list, in order.
pub open spec fn entry_keys<V>(entries: Seq<(Seq<char>, V)>) -> Seq<Seq<char>> {
    Seq::new(entries.len(), |i: int| entries[i].0)
}

/// Each key of the entries occurs once.
pub open spec fn unique_keys<V>(entries: Seq<(Seq<char>, V)>) -> bool {
    distinct(entry_keys(entries))
}

/// The entries with `key` set to `value`: in place where the key is present,
/// at the end where it is not.
pub open spec fn with_entry<V>(entries: Seq<(Seq<char>, V)>, key: Seq<char>, value: V) -> Seq<
    (Seq<char>, V),
> {
    match first_index(entry_keys(entries), key) {
        Some(i) => entries.update(i, (key, value)),
        None => entries.push((key, value)),
    }
}

/// The entries without `key`.
pub open spec fn without_entry<V>(entries: Seq<(Seq<char>, V)>, key: Seq<char>) -> Seq<
    (Seq<char>, V),
> {
    match first_index(entry_keys(entries), key) {
        Some(i) => entries.remove(i),
        None => entries,
    }
}

/// The value under `key`, if the key is present.
pub open spec fn entry_value<V>(entries: Seq<(Seq<char>, V)>, key: Seq<char>) -> Option<V> {
    match first_index(entry_keys(entries), key) {
        Some(i) => Some(entries[i].1),
        None => None,
    }
}

/// `base` after the first `n` entries of `patch` are applied in order: a value
/// replaces or adds its key, a tombstone removes it.
pub open spec fn patched(base: MetadataEntries, patch: PatchEntries, n: nat) -> MetadataEntries
    decreases n,
{
    if n == 0 {
        base
    } else {
        let before = patched(base, patch, (n - 1) as nat);
        let entry = patch[n - 1];
        match stored_value(entry.1) {
            Some(v) => with_entry(before, entry.0, v),
            None => without_entry(before, entry.0),
        }
    }
}

/// The patch holds no tombstone.
pub open spec fn all_storable(patch: PatchEntries) -> bool {
    forall|i: int| 0 <= i < patch.len() ==> stored_value(#[trigger] patch[i].1) is Some
}

/// The merge of an optional base with an optional patch: the patch applied to
/// the base (an absent one counts as empty), and nothing where that leaves no
/// key.
pub open spec fn merged(base: Option<MetadataEntries>, patch: Option<PatchEntries>) -> Option<
    MetadataEntries,
> {
    let start = match base {
        Some(b) => b,
        None => Seq::empty(),
    };
    let all = match patch {
        Some(p) => patched(start, p, p.len()),
        None => start,
    };
    if all.len() == 0 {
        None
    } else {
        Some(all)
    }
}

/// What a key holds after the first `n` entries of a patch: the value of the
/// last of them that names the key (nothing, for a tombstone), or what the
/// base held where none does.
pub open spec fn last_write(base: MetadataEntries, patch: PatchEntries, n: nat, k: Seq<char>) -> Option<
    MetadataValueView,
>
    decreases n,
{
    if n == 0 {
        entry_value(base, k)
    } else if patch[n - 1].0 == k {
        stored_value(patch[n - 1].1)
    } else {
        last_write(base, patch, (n - 1) as nat, k)
    }
}

impl MetadataValue {
    pub fn duplicate(&self) -> (r: MetadataValue)
        ensures
            r@ == self@,
    {
        match self {
            MetadataValue::Int(i) => MetadataValue::Int(*i),
            MetadataValue::Float(f) => MetadataValue::Float(*f),
            MetadataValue::Str(s) => MetadataValue::Str(s.clone()),
        }
    }
}

impl UpdateMetadataValue {
    /// The stored value for this patch value; a tombstone has none.
    pub fn to_stored(&self) -> (r: Result<MetadataValue, MetadataValueConversionError>)
        ensures
            match stored_value(self@) {
                Some(v) => r.is_ok() && r.unwrap()@ == v,
                None => r == Err::<MetadataValue, MetadataValueConversionError>(
                    MetadataValueConversionError::InvalidValue,
                ),
            },
    {
        match self {
            UpdateMetadataValue::Int(i) => Ok(MetadataValue::Int(*i)),
            UpdateMetadataValue::Float(f) => Ok(MetadataValue::Float(*f)),
            UpdateMetadataValue::Str(s) => Ok(MetadataValue::Str(s.clone())),
            UpdateMetadataValue::Tombstone => Err(MetadataValueConversionError::InvalidValue),
        }
    }
}

/// Stored metadata: keys with their values, in the order in which the keys
/// were first set.
#[derive(Clone, Debug)]
pub struct Metadata {
    entries: Vec<(String, MetadataValue)>,
}

/// A metadata patch: keys with new values or tombstones.
#[derive(Clone, Debug)]
pub struct UpdateMetadata {
    entries: Vec<(String, UpdateMetadataValue)>,
}

impl View for Metadata {
    type V = MetadataEntries;

    closed spec fn view(&self) -> MetadataEntries {
        Seq::new(self.entries@.len(), |i: int| (self.entries@[i].0@, self.entries@[i].1@))
    }
}

impl View for UpdateMetadata {
    type V = PatchEntries;

    closed spec fn view(&self) -> PatchEntries {
        Seq::new(self.entries@.len(), |i: int| (self.entries@[i].0@, self.entries@[i].1@))
    }
}

/// The keys of stored entries, in order.
spec fn stored_keys<V>(entries: Seq<(String, V)>) -> Seq<Seq<char>> {
    Seq::new(entries.len(), |i: int| entries[i].0@)
}

fn find_entry<V>(entries: &Vec<(String, V)>, key: &str) -> (r: Option<usize>)
    ensures
        match r {
            Some(i) => i < entries@.len() && first_index(stored_keys(entries@), key@) == Some(
                i as int,
            ),
            None => first_index(stored_keys(entries@), key@) == None::<int>,
        },
{
    let ghost keys = stored_keys(entries@);
    let mut i: usize = 0;
    while i < entries.len()
        invariant
            i <= entries.len(),
            keys == stored_keys(entries@),
            forall|j: int| 0 <= j < i ==> keys[j] != key@,
        decreases entries.len() - i,
    {
        if same_text(entries[i].0.as_str(), key) {
            proof {
                assert(is_first(keys, key@, i as int));
                lemma_first_index_found(keys, key@, i as int);
            }
            return Some(i);
        }
        i += 1;
    }
    proof {
        lemma_first_index_absent(keys, key@);
    }
    None
}

impl Metadata {
    pub fn new() -> (r: Metadata)
        ensures
            r@ == MetadataEntries::empty(),
    {
        let r = Metadata { entries: Vec::new() };
        assert(r@ =~= MetadataEntries::empty());
        r
    }

    pub fn len(&self) -> (n: usize)
        ensures
            n == self@.len(),
    {
        self.entries.len()
    }

    /// Sets `key` to `value`, replacing the value that the key had.
    pub fn insert(&mut self, key: String, value: MetadataValue)
        ensures
            final(self)@ == with_entry(old(self)@, key@, value@),
            unique_keys(old(self)@) ==> unique_keys(final(self)@),
    {
        proof {
            lemma_with_entry(self@, key@, value@, key@);
            assert(entry_keys(self@) =~= stored_keys(self.entries@));
        }
        match find_entry(&self.entries, key.as_str()) {
            Some(i) => {
                self.entries[i].1 = value;
                assert(self@ =~= with_entry(old(self)@, key@, value@));
            },
            None => {
                self.entries.push((key, value));
                assert(self@ =~= with_entry(old(self)@, key@, value@));
            },
        }
    }

    /// Removes `key` and returns whether it was present.
    pub fn remove(&mut self, key: &str) -> (found: bool)
        ensures
            final(self)@ == without_entry(old(self)@, key@),
            found == entry_value(old(self)@, key@).is_some(),
            unique_keys(old(self)@) ==> unique_keys(final(self)@),
    {
        proof {
            if unique_keys(self@) {
                lemma_without_entry(self@, key@, key@);
            }
            assert(entry_keys(self@) =~= stored_keys(self.entries@));
        }
        match find_entry(&self.entries, key) {
            Some(i) => {
                let _ = self.entries.remove(i);
                assert(self@ =~= without_entry(old(self)@, key@));
                true
            },
            None => false,
        }
    }

    /// The key and the value at `index`, in the order in which the keys were
    /// first set.
    pub fn entry(&self, index: usize) -> (r: Option<(&String, &MetadataValue)>)
        ensures
            match r {
                Some(e) => index < self@.len() && (e.0@, e.1@) == self@[index as int],
                None => index >= self@.len(),
            },
    {
        if index < self.entries.len() {
            Some((&self.entries[index].0, &self.entries[index].1))
        } else {
            None
        }
    }

    /// The value under `key`.
    pub fn get(&self, key: &str) -> (r: Option<&MetadataValue>)
        ensures
            match r {
                Some(v) => entry_value(self@, key@) == Some(v@),
                None => entry_value(self@, key@).is_none(),
            },
    {
        proof {
            assert(entry_keys(self@) =~= stored_keys(self.entries@));
        }
        match find_entry(&self.entries, key) {
            Some(i) => Some(&self.entries[i].1),
            None => None,
        }
    }

    pub fn duplicate(&self) -> (r: Metadata)
        ensures
            r@ == self@,
    {
        let mut entries: Vec<(String, MetadataValue)> = Vec::new();
        let mut i: usize = 0;
        while i < self.entries.len()
            invariant
                i <= self.entries.len(),
                entries@.len() == i,
                forall|j: int|
                    0 <= j < i ==> (#[trigger] entries@[j]).0@ == self.entries@[j].0@
                        && entries@[j].1@ == self.entries@[j].1@,
            decreases self.entries.len() - i,
        {
            entries.push((self.entries[i].0.clone(), self.entries[i].1.duplicate()));
            i += 1;
        }
        let r = Metadata { entries };
        assert(r@ =~= self@);
        r
    }

    /// Applies `patch` entry by entry: a value replaces or adds its key, a
    /// tombstone removes it.
    pub fn apply(&mut self, patch: &UpdateMetadata)
        ensures
            final(self)@ == patched(old(self)@, patch@, patch@.len()),
            unique_keys(old(self)@) ==> unique_keys(final(self)@),
    {
        proof {
            if unique_keys(self@) {
                lemma_patched_unique(self@, patch@, patch@.len());
            }
        }
        let mut i: usize = 0;
        while i < patch.entries.len()
            invariant
                i <= patch.entries.len(),
                self@ == patched(old(self)@, patch@, i as nat),
            decreases patch.entries.len() - i,
        {
            assert(patch@[i as int] == (patch.entries@[i as int].0@, patch.entries@[i as int].1@));
            match patch.entries[i].1.to_stored() {
                Ok(v) => {
                    self.insert(patch.entries[i].0.clone(), v);
                },
                Err(_) => {
                    let _ = self.remove(patch.entries[i].0.as_str());
                },
            }
            i += 1;
        }
    }
}

impl UpdateMetadata {
    pub fn new() -> (r: UpdateMetadata)
        ensures
            r@ == PatchEntries::empty(),
    {
        let r = UpdateMetadata { entries: Vec::new() };
        assert(r@ =~= PatchEntries::empty());
        r
    }

    pub fn len(&self) -> (n: usize)
        ensures
            n == self@.len(),
    {
        self.entries.len()
    }

    /// Sets `key` to `value`, replacing what the key was set to.
    pub fn insert(&mut self, key: String, value: UpdateMetadataValue)
        ensures
            final(self)@ == with_entry(old(self)@, key@, value@),
            unique_keys(old(self)@) ==> unique_keys(final(self)@),
    {
        proof {
            lemma_with_entry(self@, key@, value@, key@);
            assert(entry_keys(self@) =~= stored_keys(self.entries@));
        }
        match find_entry(&self.entries, key.as_str()) {
            Some(i) => {
                self.entries[i].1 = value;
                assert(self@ =~= with_entry(old(self)@, key@, value@));
            },
            None => {
                self.entries.push((key, value));
                assert(self@ =~= with_entry(old(self)@, key@, value@));
            },
        }
    }

    /// What `key` is set to.
    pub fn get(&self, key: &str) -> (r: Option<&UpdateMetadataValue>)
        ensures
            match r {
                Some(v) => entry_value(self@, key@) == Some(v@),
                None => entry_value(self@, key@).is_none(),
            },
    {
        proof {
            assert(entry_keys(self@) =~= stored_keys(self.entries@));
        }
        match find_entry(&self.entries, key) {
            Some(i) => Some(&self.entries[i].1),
            None => None,
        }
    }
}

/// The entries of optional metadata.
pub open spec fn option_view(m: Option<Metadata>) -> Option<MetadataEntries> {
    match m {
        Some(x) => Some(x@),
        None => None,
    }
}

/// The entries of an optional patch.
pub open spec fn option_patch_view(m: Option<UpdateMetadata>) -> Option<PatchEntries> {
    match m {
        Some(x) => Some(x@),
        None => None,
    }
}

/// The stored metadata that a patch stands for when nothing precedes it.
/// A patch with a tombstone stands for none.
pub fn update_metadata_to_metadata(patch: &UpdateMetadata) -> (r: Result<
    Metadata,
    MetadataValueConversionError,
>)
    ensures
        all_storable(patch@) ==> r.is_ok() && r.unwrap()@ == patched(
            Seq::empty(),
            patch@,
            patch@.len(),
        ),
        !all_storable(patch@) ==> r == Err::<Metadata, MetadataValueConversionError>(
            MetadataValueConversionError::InvalidValue,
        ),
{
    let mut out = Metadata::new();
    let mut i: usize = 0;
    while i < patch.entries.len()
        invariant
            i <= patch.entries.len(),
            out@ == patched(Seq::empty(), patch@, i as nat),
            forall|j: int| 0 <= j < i ==> stored_value(#[trigger] patch@[j].1) is Some,
        decreases patch.entries.len() - i,
    {
        assert(patch@[i as int] == (patch.entries@[i as int].0@, patch.entries@[i as int].1@));
        match patch.entries[i].1.to_stored() {
            Ok(v) => {
                out.insert(patch.entries[i].0.clone(), v);
            },
            Err(e) => {
                assert(stored_value(patch@[i as int].1) is None);
                return Err(e);
            },
        }
        i += 1;
    }
    Ok(out)
}

/// Merges a patch into what was merged before. Keys of the patch win over
/// keys of the base, a tombstone removes its key, and a merge that leaves no
/// key yields nothing.
pub fn merge_update_metadata(base: &Option<Metadata>, patch: &Option<UpdateMetadata>) -> (r: Option<
    Metadata,
>)
    ensures
        option_view(r) == merged(option_view(*base), option_patch_view(*patch)),
{
    let mut all = match base {
        Some(b) => b.duplicate(),
        None => Metadata::new(),
    };
    match patch {
        Some(p) => {
            all.apply(p);
        },
        None => {},
    }
    if all.len() == 0 {
        None
    } else {
        Some(all)
    }
}

/// Setting a key changes what is found under that key and under no other,
/// and keeps the keys unique.
pub proof fn lemma_with_entry<V>(entries: Seq<(Seq<char>, V)>, key: Seq<char>, value: V, k: Seq<char>)
    ensures
        entry_value(with_entry(entries, key, value), k) == if k == key {
            Some(value)
        } else {
            entry_value(entries, k)
        },
        unique_keys(entries) ==> unique_keys(with_entry(entries, key, value)),
{
    let keys = entry_keys(entries);
    let after = with_entry(entries, key, value);
    let keys_after = entry_keys(after);
    lemma_first_index(keys, key);
    lemma_first_index(keys, k);
    match first_index(keys, key) {
        Some(i) => {
            assert(keys_after =~= keys);
        },
        None => {
            assert(keys_after =~= keys.push(key));
            if k == key {
                assert(is_first(keys_after, k, keys.len() as int));
                lemma_first_index_found(keys_after, k, keys.len() as int);
            } else {
                match first_index(keys, k) {
                    Some(j) => {
                        assert(is_first(keys_after, k, j));
                        lemma_first_index_found(keys_after, k, j);
                    },
                    None => {
                        lemma_first_index_absent(keys_after, k);
                    },
                }
            }
        },
    }
}

/// Removing a key of entries with unique keys leaves nothing under that key,
/// changes no other key, and keeps the keys unique.
pub proof fn lemma_without_entry<V>(entries: Seq<(Seq<char>, V)>, key: Seq<char>, k: Seq<char>)
    requires
        unique_keys(entries),
    ensures
        entry_value(without_entry(entries, key), k) == if k == key {
            None
        } else {
            entry_value(entries, k)
        },
        unique_keys(without_entry(entries, key)),
{
    let keys = entry_keys(entries);
    let after = without_entry(entries, key);
    let keys_after = entry_keys(after);
    lemma_first_index(keys, key);
    lemma_first_index(keys, k);
    match first_index(keys, key) {
        Some(i) => {
            assert(keys_after =~= keys.remove(i));
            if k == key {
                lemma_first_index_absent(keys_after, k);
            } else {
                match first_index(keys, k) {
                    Some(j) => {
                        let at = if j < i {
                            j
                        } else {
                            j - 1
                        };
                        assert(is_first(keys_after, k, at));
                        lemma_first_index_found(keys_after, k, at);
                    },
                    None => {
                        lemma_first_index_absent(keys_after, k);
                    },
                }
            }
        },
        None => {},
    }
}

/// A patch applied to entries with unique keys leaves unique keys.
pub proof fn lemma_patched_unique(base: MetadataEntries, patch: PatchEntries, n: nat)
    requires
        unique_keys(base),
        n <= patch.len(),
    ensures
        unique_keys(patched(base, patch, n)),
    decreases n,
{
    if n > 0 {
        let before = patched(base, patch, (n - 1) as nat);
        let entry = patch[n - 1];
        lemma_patched_unique(base, patch, (n - 1) as nat);
        match stored_value(entry.1) {
            Some(v) => lemma_with_entry(before, entry.0, v, entry.0),
            None => lemma_without_entry(before, entry.0, entry.0),
        }
    }
}

/// The merge is key by key, and the patch wins: after the first `n` entries
/// of a patch are applied, a key that one of them names holds what the last
/// such entry gave it (nothing, for a tombstone), and any other key holds
/// what the base held.
pub proof fn law_patch_wins_key_by_key(base: MetadataEntries, patch: PatchEntries, n: nat, k: Seq<char>)
    requires
        unique_keys(base),
        n <= patch.len(),
    ensures
        entry_value(patched(base, patch, n), k) == last_write(base, patch, n, k),
    decreases n,
{
    if n > 0 {
        let before = patched(base, patch, (n - 1) as nat);
        let entry = patch[n - 1];
        law_patch_wins_key_by_key(base, patch, (n - 1) as nat, k);
        lemma_patched_unique(base, patch, (n - 1) as nat);
        match stored_value(entry.1) {
            Some(v) => lemma_with_entry(before, entry.0, v, k),
            None => lemma_without_entry(before, entry.0, k),
        }
    }
}

} // verus!
