//! The server's catalog: every source, by name, with its vector bases.
//!
//! The catalog is held in memory; writing it to disk after each change is
//! left to the caller.

use vstd::prelude::*;
use crate::data::{
    Source, SourceView, VectorBase, first_named, first_with_id, clone_vector_bases, position_by_name,
};
use crate::stamps::{new_uuid, now_rfc3339, is_uuid_v4_text, is_utc_rfc3339_text};

verus! {

/// Why a catalog operation was refused.
#[derive(Debug)]
pub enum CatalogError {
    /// A source with this name is already in the catalog.
    SourceExists(String),
    /// No source has this name.
    SourceNotFound(String),
    /// The source already holds a vector base with this name.
    VectorBaseExists(String),
    /// The source holds no vector base with this name or identifier.
    VectorBaseNotFound(String),
}

/// Index of the first source named `name`.
pub open spec fn source_pos(s: Seq<Source>, name: Seq<char>) -> Option<int> {
    if exists|i: int| 0 <= i < s.len() && (#[trigger] s[i]).source_name@ == name {
        Some(choose|i: int| 0 <= i < s.len() && (#[trigger] s[i]).source_name@ == name)
    } else {
        None
    }
}

/// No two sources share a name.
pub open spec fn names_unique(s: Seq<Source>) -> bool {
    forall|i: int, j: int|
        0 <= i < s.len() && 0 <= j < s.len() && i != j ==> (#[trigger] s[i]).source_name@ != (#[trigger] s[j]).source_name@
}

/// The catalog as a map from source name to source.
pub open spec fn catalog_map(s: Seq<Source>) -> Map<Seq<char>, SourceView> {
    Map::new(|k: Seq<char>| source_pos(s, k) is Some, |k: Seq<char>| s[source_pos(s, k)->0]@)
}

/// `vb` is `old` with a new last-query time; nothing else differs.
pub open spec fn touched(old: VectorBase, vb: VectorBase) -> bool {
    vb == VectorBase { last_queried_at: vb.last_queried_at, ..old }
}

/// The source with the vector base at index `i` replaced by `vb`.
pub open spec fn with_vector_base(s: SourceView, i: int, vb: VectorBase) -> SourceView {
    SourceView { vector_bases: s.vector_bases.update(i, vb), ..s }
}

/// The names a list of strings holds.
pub open spec fn names_of(v: Seq<String>) -> Set<Seq<char>> {
    Set::new(|k: Seq<char>| exists|i: int| 0 <= i < v.len() && (#[trigger] v[i])@ == k)
}

/// Whether `v` holds a string equal to `s`.
fn contains_name(v: &Vec<String>, s: &String) -> (b: bool)
    ensures
        b == names_of(v@).contains(s@),
{
    let mut i: usize = 0;
    while i < v.len()
        invariant
            i <= v@.len(),
            forall|j: int| 0 <= j < i ==> (#[trigger] v@[j])@ != s@,
        decreases v@.len() - i,
    {
        if v[i] == *s {
            return true;
        }
        i = i + 1;
    }
    false
}

/// `orphaned` and `untracked` are what comparing the catalog's source names
/// `dom` with the directory names `fs` finds: the catalog's names missing on
/// disk, each once, and the directories the catalog lacks, in their order.
pub open spec fn is_sync_report(dom: Set<Seq<char>>, fs: Seq<String>, orphaned: Seq<String>, untracked: Seq<String>) -> bool {
    &&& untracked == fs.filter(|n: String| !dom.contains(n@))
    &&& forall|i: int| 0 <= i < orphaned.len() ==> dom.contains(#[trigger] orphaned[i]@) && !names_of(fs).contains(orphaned[i]@)
    &&& forall|k: Seq<char>| dom.contains(k) && !names_of(fs).contains(k) ==> exists|i: int|
        0 <= i < orphaned.len() && (#[trigger] orphaned[i])@ == k
    &&& forall|i: int, j: int|
        0 <= i < orphaned.len() && 0 <= j < orphaned.len() && i != j ==> (#[trigger] orphaned[i])@ != (#[trigger] orphaned[j])@
}

/// What comparing the catalog with the disk found.
pub struct SyncReport {
    /// Sources in the catalog without a directory on disk.
    pub orphaned_in_store: Vec<String>,
    /// Directories on disk without a source in the catalog.
    pub untracked_on_fs: Vec<String>,
}

impl SyncReport {
    /// Whether catalog and disk agree: nothing orphaned, nothing untracked.
    pub fn is_clean(&self) -> (b: bool)
        ensures
            b == (self.orphaned_in_store@.len() == 0 && self.untracked_on_fs@.len() == 0),
    {
        self.orphaned_in_store.len() == 0 && self.untracked_on_fs.len() == 0
    }
}

impl Default for SyncReport {
    /// An empty report.
    fn default() -> (r: Self)
        ensures
            r.orphaned_in_store@.len() == 0,
            r.untracked_on_fs@.len() == 0,
    {
        SyncReport { orphaned_in_store: Vec::new(), untracked_on_fs: Vec::new() }
    }
}

/// Registry of all sources and their vector bases.
pub struct ServerFile {
    sources: Vec<Source>,
}

impl View for ServerFile {
    type V = Map<Seq<char>, SourceView>;

    closed spec fn view(&self) -> Map<Seq<char>, SourceView> {
        catalog_map(self.sources@)
    }
}

/// Within a name-unique sequence, the source at `i` is the one its name
/// finds.
proof fn lemma_pos_of_index(s: Seq<Source>, i: int)
    requires
        names_unique(s),
        0 <= i < s.len(),
    ensures
        source_pos(s, s[i].source_name@) == Some(i),
{
    let k = choose|k: int| 0 <= k < s.len() && (#[trigger] s[k]).source_name@ == s[i].source_name@;
    assert(s[i].source_name@ == s[i].source_name@);
    if k != i {
        assert(s[k].source_name@ != s[i].source_name@);
    }
}

/// Replacing one source by another of the same name updates the map at
/// that name only.
proof fn lemma_map_update(s: Seq<Source>, i: int, src: Source)
    requires
        names_unique(s),
        0 <= i < s.len(),
        src.source_name@ == s[i].source_name@,
    ensures
        names_unique(s.update(i, src)),
        catalog_map(s.update(i, src)) == catalog_map(s).insert(src.source_name@, src@),
{
    let t = s.update(i, src);
    assert(names_unique(t)) by {
        assert forall|a: int, b: int|
            0 <= a < t.len() && 0 <= b < t.len() && a != b implies (#[trigger] t[a]).source_name@ != (#[trigger] t[b]).source_name@ by {
            assert(s[a].source_name@ != s[b].source_name@);
        }
    }
    lemma_pos_of_index(t, i);
    assert forall|k: Seq<char>| #![auto] source_pos(t, k) is Some <==> source_pos(s, k) is Some by {
        if source_pos(s, k) is Some {
            let j = source_pos(s, k)->0;
            assert(t[j].source_name@ == k);
        }
        if source_pos(t, k) is Some {
            let j = source_pos(t, k)->0;
            assert(s[j].source_name@ == k);
        }
    }
    assert forall|k: Seq<char>| source_pos(t, k) is Some && k != src.source_name@ implies #[trigger] t[source_pos(t, k)->0]@
        == s[source_pos(s, k)->0]@ by {
        let j = source_pos(t, k)->0;
        assert(j != i);
        lemma_pos_of_index(s, j);
        lemma_pos_of_index(t, j);
    }
    assert(catalog_map(t) =~= catalog_map(s).insert(src.source_name@, src@));
}

/// Appending a source with a new name adds it to the map.
proof fn lemma_map_push(s: Seq<Source>, src: Source)
    requires
        names_unique(s),
        source_pos(s, src.source_name@) is None,
    ensures
        names_unique(s.push(src)),
        catalog_map(s.push(src)) == catalog_map(s).insert(src.source_name@, src@),
{
    let t = s.push(src);
    assert(names_unique(t)) by {
        assert forall|a: int, b: int|
            0 <= a < t.len() && 0 <= b < t.len() && a != b implies (#[trigger] t[a]).source_name@ != (#[trigger] t[b]).source_name@ by {
            if a < s.len() && b < s.len() {
                assert(s[a].source_name@ != s[b].source_name@);
            } else if a < s.len() {
                assert(s[a].source_name@ == t[a].source_name@);
            } else {
                assert(s[b].source_name@ == t[b].source_name@);
            }
        }
    }
    lemma_pos_of_index(t, s.len() as int);
    assert forall|k: Seq<char>| #![auto] k != src.source_name@ implies (source_pos(t, k) is Some <==> source_pos(s, k) is Some) by {
        if source_pos(s, k) is Some {
            let j = source_pos(s, k)->0;
            assert(t[j].source_name@ == k);
        }
        if source_pos(t, k) is Some {
            let j = source_pos(t, k)->0;
            assert(j < s.len());
            assert(s[j].source_name@ == k);
        }
    }
    assert forall|k: Seq<char>| source_pos(t, k) is Some && k != src.source_name@ implies #[trigger] t[source_pos(t, k)->0]@
        == s[source_pos(s, k)->0]@ by {
        let j = source_pos(t, k)->0;
        assert(j < s.len());
        lemma_pos_of_index(s, j);
        lemma_pos_of_index(t, j);
    }
    assert(catalog_map(t) =~= catalog_map(s).insert(src.source_name@, src@));
}

/// Removing the source at `i` removes its name from the map.
proof fn lemma_map_remove(s: Seq<Source>, i: int)
    requires
        names_unique(s),
        0 <= i < s.len(),
    ensures
        names_unique(s.remove(i)),
        catalog_map(s.remove(i)) == catalog_map(s).remove(s[i].source_name@),
{
    let t = s.remove(i);
    let name = s[i].source_name@;
    assert forall|a: int| 0 <= a < t.len() implies #[trigger] t[a] == s[if a < i { a } else { a + 1 }] by {}
    assert(names_unique(t)) by {
        assert forall|a: int, b: int|
            0 <= a < t.len() && 0 <= b < t.len() && a != b implies (#[trigger] t[a]).source_name@ != (#[trigger] t[b]).source_name@ by {
            let a1 = if a < i { a } else { a + 1 };
            let b1 = if b < i { b } else { b + 1 };
            assert(s[a1].source_name@ != s[b1].source_name@);
        }
    }
    assert forall|k: Seq<char>| #![auto] k != name implies (source_pos(t, k) is Some <==> source_pos(s, k) is Some) by {
        if source_pos(s, k) is Some {
            let j = source_pos(s, k)->0;
            assert(j != i);
            let j1 = if j < i { j } else { j - 1 };
            assert(t[j1] == s[j]);
            assert(t[j1].source_name@ == k);
        }
        if source_pos(t, k) is Some {
            let j = source_pos(t, k)->0;
            let j1 = if j < i { j } else { j + 1 };
            assert(s[j1].source_name@ == k);
        }
    }
    assert(source_pos(t, name) is None) by {
        if source_pos(t, name) is Some {
            let j = source_pos(t, name)->0;
            let j1 = if j < i { j } else { j + 1 };
            assert(s[j1].source_name@ == name);
            assert(j1 != i);
        }
    }
    assert forall|k: Seq<char>| source_pos(t, k) is Some && k != name implies #[trigger] t[source_pos(t, k)->0]@
        == s[source_pos(s, k)->0]@ by {
        let j = source_pos(t, k)->0;
        let j1 = if j < i { j } else { j + 1 };
        lemma_pos_of_index(t, j);
        lemma_pos_of_index(s, j1);
    }
    assert(catalog_map(t) =~= catalog_map(s).remove(name));
}

impl ServerFile {
    #[verifier::type_invariant]
    spec fn inv(self) -> bool {
        names_unique(self.sources@)
    }

    /// An empty catalog.
    pub fn new() -> (r: Self)
        ensures
            r@ == Map::<Seq<char>, SourceView>::empty(),
    {
        let r = ServerFile { sources: Vec::new() };
        assert(r@ =~= Map::<Seq<char>, SourceView>::empty());
        r
    }

    /// Finds the source named `name`.
    fn position(&self, name: &String) -> (r: Option<usize>)
        ensures
            match r {
                Some(i) => i < self.sources@.len() && self.sources@[i as int].source_name@ == name@
                    && source_pos(self.sources@, name@) == Some(i as int),
                None => source_pos(self.sources@, name@) is None,
            },
    {
        proof {
            use_type_invariant(self);
        }
        let mut i: usize = 0;
        while i < self.sources.len()
            invariant
                i <= self.sources@.len(),
                names_unique(self.sources@),
                forall|j: int| 0 <= j < i ==> (#[trigger] self.sources@[j]).source_name@ != name@,
            decreases self.sources@.len() - i,
        {
            if self.sources[i].source_name == *name {
                proof {
                    lemma_pos_of_index(self.sources@, i as int);
                }
                return Some(i);
            }
            i = i + 1;
        }
        None
    }

    /// Whether a source named `source_name` is in the catalog.
    pub fn source_exists(&self, source_name: &str) -> (b: bool)
        ensures
            b == self@.dom().contains(source_name@),
    {
        let key = source_name.to_owned();
        self.position(&key).is_some()
    }

    /// Same as `source_exists`: the catalog alone, without the disk.
    pub fn source_exists_in_store(&self, source_name: &str) -> (b: bool)
        ensures
            b == self@.dom().contains(source_name@),
    {
        self.source_exists(source_name)
    }

    /// A source is valid when the catalog has it and its directory exists;
    /// `on_disk` says whether the directory exists.
    pub fn is_source_valid(&self, source_name: &str, on_disk: bool) -> (b: bool)
        ensures
            b == (self@.dom().contains(source_name@) && on_disk),
    {
        self.source_exists(source_name) && on_disk
    }

    /// The source named `source_name`, if any.
    pub fn get_source(&self, source_name: &str) -> (r: Option<Source>)
        ensures
            match r {
                Some(s) => self@.dom().contains(source_name@) && s@ == self@[source_name@] && s.source_name@
                    == source_name@,
                None => !self@.dom().contains(source_name@),
            },
    {
        let key = source_name.to_owned();
        match self.position(&key) {
            Some(i) => Some(self.sources[i].clone()),
            None => None,
        }
    }

    /// The names of all sources, each once.
    pub fn list_sources(&self) -> (r: Vec<String>)
        ensures
            r@.len() == self@.dom().len(),
            forall|i: int| 0 <= i < r@.len() ==> self@.dom().contains(#[trigger] r@[i]@),
            forall|k: Seq<char>| self@.dom().contains(k) ==> exists|i: int| 0 <= i < r@.len() && (#[trigger] r@[i])@ == k,
            forall|i: int, j: int| 0 <= i < r@.len() && 0 <= j < r@.len() && i != j ==> (#[trigger] r@[i])@ != (#[trigger] r@[j])@,
    {
        proof {
            use_type_invariant(self);
        }
        let mut r: Vec<String> = Vec::new();
        let mut i: usize = 0;
        while i < self.sources.len()
            invariant
                i <= self.sources@.len(),
                names_unique(self.sources@),
                r@.len() == i,
                forall|j: int| 0 <= j < i ==> (#[trigger] r@[j])@ == self.sources@[j].source_name@,
            decreases self.sources@.len() - i,
        {
            r.push(self.sources[i].source_name.clone());
            i = i + 1;
        }
        proof {
            self.lemma_dom_is_names();
            assert forall|k: Seq<char>| self@.dom().contains(k) implies exists|i: int| 0 <= i < r@.len() && (#[trigger] r@[i])@ == k by {
                let j = source_pos(self.sources@, k)->0;
                assert(r@[j]@ == k);
            }
            assert forall|i: int| 0 <= i < r@.len() implies self@.dom().contains(#[trigger] r@[i]@) by {
                lemma_pos_of_index(self.sources@, i);
            }
        }
        r
    }

    /// The map's domain has one name per source.
    proof fn lemma_dom_is_names(&self)
        requires
            names_unique(self.sources@),
        ensures
            self@.dom().len() == self.sources@.len(),
            self@.dom().finite(),
    {
        let s = self.sources@;
        let names = s.map_values(|x: Source| x.source_name@);
        assert(names.no_duplicates()) by {
            assert forall|a: int, b: int| 0 <= a < names.len() && 0 <= b < names.len() && a != b implies names[a] != names[b] by {
                assert(s[a].source_name@ != s[b].source_name@);
            }
        }
        assert(self@.dom() =~= names.to_set()) by {
            assert forall|k: Seq<char>| self@.dom().contains(k) <==> names.to_set().contains(k) by {
                if self@.dom().contains(k) {
                    let j = source_pos(s, k)->0;
                    assert(names[j] == k);
                }
                if names.to_set().contains(k) {
                    let j = choose|j: int| 0 <= j < names.len() && names[j] == k;
                    assert(s[j].source_name@ == k);
                }
            }
        }
        names.unique_seq_to_set();
    }

    /// Every source.
    pub fn get_all_sources(&self) -> (r: Vec<Source>)
        ensures
            r@.len() == self@.dom().len(),
            forall|i: int| 0 <= i < r@.len() ==> self@.dom().contains((#[trigger] r@[i]).source_name@)
                && r@[i]@ == self@[r@[i].source_name@],
            forall|k: Seq<char>| self@.dom().contains(k) ==> exists|i: int| 0 <= i < r@.len() && (#[trigger] r@[i]).source_name@ == k,
    {
        proof {
            use_type_invariant(self);
        }
        let mut r: Vec<Source> = Vec::new();
        let mut i: usize = 0;
        while i < self.sources.len()
            invariant
                i <= self.sources@.len(),
                names_unique(self.sources@),
                r@.len() == i,
                forall|j: int| 0 <= j < i ==> (#[trigger] r@[j])@ == self.sources@[j]@,
            decreases self.sources@.len() - i,
        {
            r.push(self.sources[i].clone());
            i = i + 1;
        }
        proof {
            self.lemma_dom_is_names();
            assert forall|k: Seq<char>| self@.dom().contains(k) implies exists|i: int| 0 <= i < r@.len() && (#[trigger] r@[i]).source_name@ == k by {
                let j = source_pos(self.sources@, k)->0;
                assert(r@[j].source_name@ == k);
            }
            assert forall|i: int| 0 <= i < r@.len() implies self@.dom().contains((#[trigger] r@[i]).source_name@)
                && r@[i]@ == self@[r@[i].source_name@] by {
                lemma_pos_of_index(self.sources@, i);
            }
        }
        r
    }

    /// Adds a new, empty source; refused when the name is taken.
    pub fn add_source(&mut self, src_id: String, source_name: String, created_at: String) -> (r: Result<Source, CatalogError>)
        ensures
            old(self)@.dom().contains(source_name@) ==> r == Err::<Source, CatalogError>(CatalogError::SourceExists(source_name))
                && final(self)@ == old(self)@,
            !old(self)@.dom().contains(source_name@) ==> r is Ok,
            r matches Ok(s) ==> s.src_id == src_id && s.source_name == source_name && s.created_at == created_at
                && s.vector_bases@.len() == 0 && s.backup_interval_hours == 0
                && final(self)@ == old(self)@.insert(source_name@, s@),
    {
        proof {
            use_type_invariant(&*self);
        }
        if self.position(&source_name).is_some() {
            return Err(CatalogError::SourceExists(source_name));
        }
        let source = Source::new(src_id, source_name, created_at);
        let copy = source.clone();
        proof {
            lemma_map_push(self.sources@, copy);
        }
        let mut v: Vec<Source> = Vec::new();
        std::mem::swap(&mut v, &mut self.sources);
        v.push(copy);
        self.sources = v;
        Ok(source)
    }

    /// Adds a new, empty source with a fresh random identifier and the
    /// current time; refused when the name is taken.
    pub fn add_source_with_generated(&mut self, source_name: String) -> (r: Result<Source, CatalogError>)
        ensures
            old(self)@.dom().contains(source_name@) ==> r == Err::<Source, CatalogError>(CatalogError::SourceExists(source_name))
                && final(self)@ == old(self)@,
            !old(self)@.dom().contains(source_name@) ==> r is Ok,
            r matches Ok(s) ==> is_uuid_v4_text(s.src_id@) && s.source_name == source_name
                && s.vector_bases@.len() == 0 && s.backup_interval_hours == 0
                && final(self)@ == old(self)@.insert(source_name@, s@),
    {
        if self.position(&source_name).is_some() {
            return Err(CatalogError::SourceExists(source_name));
        }
        let src_id = new_uuid();
        let created_at = now_rfc3339();
        self.add_source(src_id, source_name, created_at)
    }

    /// Replaces the source of the same name; refused when there is none.
    pub fn update_source(&mut self, source: Source) -> (r: Result<(), CatalogError>)
        ensures
            old(self)@.dom().contains(source.source_name@) ==> r is Ok && final(self)@ == old(self)@.insert(
                source.source_name@,
                source@,
            ),
            !old(self)@.dom().contains(source.source_name@) ==> r == Err::<(), CatalogError>(
                CatalogError::SourceNotFound(source.source_name),
            ) && final(self)@ == old(self)@,
    {
        proof {
            use_type_invariant(&*self);
        }
        match self.position(&source.source_name) {
            Some(i) => {
                proof {
                    lemma_map_update(self.sources@, i as int, source);
                }
                let mut v: Vec<Source> = Vec::new();
                std::mem::swap(&mut v, &mut self.sources);
                v.set(i, source);
                self.sources = v;
                Ok(())
            },
            None => Err(CatalogError::SourceNotFound(source.source_name)),
        }
    }

    /// Removes the source named `source_name` and returns it.
    pub fn remove_source(&mut self, source_name: &str) -> (r: Result<Source, CatalogError>)
        ensures
            old(self)@.dom().contains(source_name@) ==> r is Ok && final(self)@ == old(self)@.remove(source_name@),
            r matches Ok(s) ==> s@ == old(self)@[source_name@],
            !old(self)@.dom().contains(source_name@) ==> (r matches Err(CatalogError::SourceNotFound(n)) && n@
                == source_name@) && final(self)@ == old(self)@,
    {
        proof {
            use_type_invariant(&*self);
        }
        let key = source_name.to_owned();
        match self.position(&key) {
            Some(i) => {
                proof {
                    lemma_map_remove(self.sources@, i as int);
                }
                let mut v: Vec<Source> = Vec::new();
                std::mem::swap(&mut v, &mut self.sources);
                let s = v.remove(i);
                self.sources = v;
                Ok(s)
            },
            None => Err(CatalogError::SourceNotFound(key)),
        }
    }

    /// Puts `source` in place of the source at `i`, which has its name.
    fn put(&mut self, i: usize, source: Source)
        requires
            i < old(self).sources@.len(),
            source.source_name@ == old(self).sources@[i as int].source_name@,
        ensures
            final(self)@ == old(self)@.insert(source.source_name@, source@),
    {
        proof {
            use_type_invariant(&*self);
            lemma_map_update(self.sources@, i as int, source);
        }
        let mut v: Vec<Source> = Vec::new();
        std::mem::swap(&mut v, &mut self.sources);
        v.set(i, source);
        self.sources = v;
    }

    /// Adds a vector base to a source; refused when the source is missing
    /// or already holds a vector base of that name.
    pub fn add_vector_base(&mut self, source_name: &str, vb: VectorBase) -> (r: Result<(), CatalogError>)
        ensures
            !old(self)@.dom().contains(source_name@) ==> (r matches Err(CatalogError::SourceNotFound(n)) && n@
                == source_name@),
            old(self)@.dom().contains(source_name@) && first_named(old(self)@[source_name@].vector_bases, vb.vb_name@) is Some
                ==> r == Err::<(), CatalogError>(CatalogError::VectorBaseExists(vb.vb_name)),
            r is Err ==> final(self)@ == old(self)@,
            old(self)@.dom().contains(source_name@) && first_named(old(self)@[source_name@].vector_bases, vb.vb_name@) is None
                ==> r is Ok && final(self)@ == old(self)@.insert(
                source_name@,
                SourceView {
                    vector_bases: old(self)@[source_name@].vector_bases.push(vb),
                    ..old(self)@[source_name@]
                },
            ),
    {
        let key = source_name.to_owned();
        match self.position(&key) {
            None => Err(CatalogError::SourceNotFound(key)),
            Some(i) => {
                let mut src = self.sources[i].clone();
                if src.find_vector_base(vb.vb_name.as_str()).is_some() {
                    return Err(CatalogError::VectorBaseExists(vb.vb_name));
                }
                src.add_vector_base(vb);
                self.put(i, src);
                Ok(())
            },
        }
    }

    /// The vector base named `vb_name` in the source named `source_name`.
    pub fn get_vector_base(&self, source_name: &str, vb_name: &str) -> (r: Option<VectorBase>)
        ensures
            r == (if self@.dom().contains(source_name@) {
                match first_named(self@[source_name@].vector_bases, vb_name@) {
                    Some(i) => Some(self@[source_name@].vector_bases[i]),
                    None => None,
                }
            } else {
                None
            }),
    {
        let key = source_name.to_owned();
        match self.position(&key) {
            None => None,
            Some(i) => match self.sources[i].find_vector_base(vb_name) {
                Some(vb) => Some(vb.clone()),
                None => None,
            },
        }
    }

    /// Replaces, in a source, the vector base with the identifier of
    /// `updated_vb`; refused when the source or the vector base is missing.
    pub fn update_vector_base(&mut self, source_name: &str, updated_vb: VectorBase) -> (r: Result<(), CatalogError>)
        ensures
            !old(self)@.dom().contains(source_name@) ==> (r matches Err(CatalogError::SourceNotFound(n)) && n@
                == source_name@),
            old(self)@.dom().contains(source_name@) && first_with_id(old(self)@[source_name@].vector_bases, updated_vb.vb_id@)
                is None ==> r == Err::<(), CatalogError>(CatalogError::VectorBaseNotFound(updated_vb.vb_id)),
            r is Err ==> final(self)@ == old(self)@,
            old(self)@.dom().contains(source_name@) ==> match first_with_id(
                old(self)@[source_name@].vector_bases,
                updated_vb.vb_id@,
            ) {
                Some(i) => r is Ok && final(self)@ == old(self)@.insert(
                    source_name@,
                    with_vector_base(old(self)@[source_name@], i, updated_vb),
                ),
                None => true,
            },
    {
        let key = source_name.to_owned();
        match self.position(&key) {
            None => Err(CatalogError::SourceNotFound(key)),
            Some(i) => {
                let mut src = self.sources[i].clone();
                let id = updated_vb.vb_id.clone();
                if src.update_vector_base(updated_vb) {
                    self.put(i, src);
                    Ok(())
                } else {
                    Err(CatalogError::VectorBaseNotFound(id))
                }
            },
        }
    }

    /// Removes, from a source, the vector base with identifier `vb_id` and
    /// returns it; refused when the source or the vector base is missing.
    pub fn remove_vector_base(&mut self, source_name: &str, vb_id: &str) -> (r: Result<VectorBase, CatalogError>)
        ensures
            !old(self)@.dom().contains(source_name@) ==> (r matches Err(CatalogError::SourceNotFound(n)) && n@
                == source_name@),
            old(self)@.dom().contains(source_name@) && first_with_id(old(self)@[source_name@].vector_bases, vb_id@) is None
                ==> (r matches Err(CatalogError::VectorBaseNotFound(n)) && n@ == vb_id@),
            r is Err ==> final(self)@ == old(self)@,
            old(self)@.dom().contains(source_name@) ==> match first_with_id(old(self)@[source_name@].vector_bases, vb_id@) {
                Some(i) => r == Ok::<VectorBase, CatalogError>(old(self)@[source_name@].vector_bases[i])
                    && final(self)@ == old(self)@.insert(
                    source_name@,
                    SourceView {
                        vector_bases: old(self)@[source_name@].vector_bases.remove(i),
                        ..old(self)@[source_name@]
                    },
                ),
                None => true,
            },
    {
        let key = source_name.to_owned();
        match self.position(&key) {
            None => Err(CatalogError::SourceNotFound(key)),
            Some(i) => {
                let mut src = self.sources[i].clone();
                match src.remove_vector_base(vb_id) {
                    Some(vb) => {
                        self.put(i, src);
                        Ok(vb)
                    },
                    None => Err(CatalogError::VectorBaseNotFound(vb_id.to_owned())),
                }
            },
        }
    }

    /// The vector bases of a source, in order; refused when the source is
    /// missing.
    pub fn list_vector_bases(&self, source_name: &str) -> (r: Result<Vec<VectorBase>, CatalogError>)
        ensures
            self@.dom().contains(source_name@) ==> (r matches Ok(v) && v@ == self@[source_name@].vector_bases),
            !self@.dom().contains(source_name@) ==> (r matches Err(CatalogError::SourceNotFound(n)) && n@
                == source_name@),
    {
        let key = source_name.to_owned();
        match self.position(&key) {
            None => Err(CatalogError::SourceNotFound(key)),
            Some(i) => Ok(clone_vector_bases(&self.sources[i].vector_bases)),
        }
    }

    /// Sets the node count of the vector base named `vb_name` in a source,
    /// and its last-query time to `time`; refused when either is missing.
    pub fn update_node_count_at(&mut self, source_name: &str, vb_name: &str, count: u32, time: &str) -> (r: Result<
        (),
        CatalogError,
    >)
        ensures
            !old(self)@.dom().contains(source_name@) ==> (r matches Err(CatalogError::SourceNotFound(n)) && n@
                == source_name@),
            old(self)@.dom().contains(source_name@) && first_named(old(self)@[source_name@].vector_bases, vb_name@) is None
                ==> (r matches Err(CatalogError::VectorBaseNotFound(n)) && n@ == vb_name@),
            r is Err ==> final(self)@ == old(self)@,
            old(self)@.dom().contains(source_name@) ==> match first_named(old(self)@[source_name@].vector_bases, vb_name@) {
                Some(i) => r is Ok && touched(
                    VectorBase { node_count: count, ..old(self)@[source_name@].vector_bases[i] },
                    final(self)@[source_name@].vector_bases[i],
                ) && final(self)@[source_name@].vector_bases[i].last_queried_at@ == time@ && final(self)@ == old(
                    self,
                )@.insert(
                    source_name@,
                    with_vector_base(old(self)@[source_name@], i, final(self)@[source_name@].vector_bases[i]),
                ),
                None => true,
            },
    {
        let key = source_name.to_owned();
        match self.position(&key) {
            None => Err(CatalogError::SourceNotFound(key)),
            Some(i) => {
                let mut src = self.sources[i].clone();
                let name = vb_name.to_owned();
                match position_by_name(&src.vector_bases, &name) {
                    Some(j) => {
                        let mut vb = src.vector_bases[j].clone();
                        vb.set_node_count_at(count, time);
                        let ghost before = src@;
                        src.vector_bases.set(j, vb);
                        proof {
                            assert(src@ == with_vector_base(before, j as int, vb));
                            assert(self@[key@] == before);
                        }
                        self.put(i, src);
                        Ok(())
                    },
                    None => {
                        proof {
                            assert(self@.dom().contains(key@));
                            assert(self@[key@] == src@);
                        }
                        Err(CatalogError::VectorBaseNotFound(name))
                    },
                }
            },
        }
    }

    /// Sets the node count of the vector base named `vb_name` in a source,
    /// and its last-query time to now; refused when either is missing.
    pub fn update_node_count(&mut self, source_name: &str, vb_name: &str, count: u32) -> (r: Result<(), CatalogError>)
        ensures
            !old(self)@.dom().contains(source_name@) ==> (r matches Err(CatalogError::SourceNotFound(n)) && n@
                == source_name@),
            old(self)@.dom().contains(source_name@) && first_named(old(self)@[source_name@].vector_bases, vb_name@) is None
                ==> (r matches Err(CatalogError::VectorBaseNotFound(n)) && n@ == vb_name@),
            r is Err ==> final(self)@ == old(self)@,
            old(self)@.dom().contains(source_name@) ==> match first_named(old(self)@[source_name@].vector_bases, vb_name@) {
                Some(i) => r is Ok && touched(
                    VectorBase { node_count: count, ..old(self)@[source_name@].vector_bases[i] },
                    final(self)@[source_name@].vector_bases[i],
                ) && is_utc_rfc3339_text(final(self)@[source_name@].vector_bases[i].last_queried_at@) && final(self)@
                    == old(self)@.insert(
                    source_name@,
                    with_vector_base(old(self)@[source_name@], i, final(self)@[source_name@].vector_bases[i]),
                ),
                None => true,
            },
    {
        let now = now_rfc3339();
        self.update_node_count_at(source_name, vb_name, count, now.as_str())
    }

    /// Sets the last-query time of the vector base named `vb_name` in a
    /// source to `time`; refused when either is missing.
    pub fn touch_vector_base_at(&mut self, source_name: &str, vb_name: &str, time: &str) -> (r: Result<(), CatalogError>)
        ensures
            !old(self)@.dom().contains(source_name@) ==> (r matches Err(CatalogError::SourceNotFound(n)) && n@
                == source_name@),
            old(self)@.dom().contains(source_name@) && first_named(old(self)@[source_name@].vector_bases, vb_name@) is None
                ==> (r matches Err(CatalogError::VectorBaseNotFound(n)) && n@ == vb_name@),
            r is Err ==> final(self)@ == old(self)@,
            old(self)@.dom().contains(source_name@) ==> match first_named(old(self)@[source_name@].vector_bases, vb_name@) {
                Some(i) => r is Ok && touched(
                    old(self)@[source_name@].vector_bases[i],
                    final(self)@[source_name@].vector_bases[i],
                ) && final(self)@[source_name@].vector_bases[i].last_queried_at@ == time@ && final(self)@ == old(
                    self,
                )@.insert(
                    source_name@,
                    with_vector_base(old(self)@[source_name@], i, final(self)@[source_name@].vector_bases[i]),
                ),
                None => true,
            },
    {
        let key = source_name.to_owned();
        match self.position(&key) {
            None => Err(CatalogError::SourceNotFound(key)),
            Some(i) => {
                let mut src = self.sources[i].clone();
                let name = vb_name.to_owned();
                match position_by_name(&src.vector_bases, &name) {
                    Some(j) => {
                        let mut vb = src.vector_bases[j].clone();
                        vb.touch_at(time);
                        let ghost before = src@;
                        src.vector_bases.set(j, vb);
                        proof {
                            assert(src@ == with_vector_base(before, j as int, vb));
                            assert(self@[key@] == before);
                        }
                        self.put(i, src);
                        Ok(())
                    },
                    None => {
                        proof {
                            assert(self@.dom().contains(key@));
                            assert(self@[key@] == src@);
                        }
                        Err(CatalogError::VectorBaseNotFound(name))
                    },
                }
            },
        }
    }

    /// Sets the last-query time of the vector base named `vb_name` in a
    /// source to now; refused when either is missing.
    pub fn touch_vector_base(&mut self, source_name: &str, vb_name: &str) -> (r: Result<(), CatalogError>)
        ensures
            !old(self)@.dom().contains(source_name@) ==> (r matches Err(CatalogError::SourceNotFound(n)) && n@
                == source_name@),
            old(self)@.dom().contains(source_name@) && first_named(old(self)@[source_name@].vector_bases, vb_name@) is None
                ==> (r matches Err(CatalogError::VectorBaseNotFound(n)) && n@ == vb_name@),
            r is Err ==> final(self)@ == old(self)@,
            old(self)@.dom().contains(source_name@) ==> match first_named(old(self)@[source_name@].vector_bases, vb_name@) {
                Some(i) => r is Ok && touched(
                    old(self)@[source_name@].vector_bases[i],
                    final(self)@[source_name@].vector_bases[i],
                ) && is_utc_rfc3339_text(final(self)@[source_name@].vector_bases[i].last_queried_at@) && final(self)@
                    == old(self)@.insert(
                    source_name@,
                    with_vector_base(old(self)@[source_name@], i, final(self)@[source_name@].vector_bases[i]),
                ),
                None => true,
            },
    {
        let now = now_rfc3339();
        self.touch_vector_base_at(source_name, vb_name, now.as_str())
    }

    /// Compares the catalog with the source directories found on disk,
    /// `fs_sources`: the sources the catalog has but the disk lacks, and the
    /// directories the catalog does not know of (in the order given).
    pub fn sync_sources(&self, fs_sources: &Vec<String>) -> (report: SyncReport)
        ensures
            is_sync_report(self@.dom(), fs_sources@, report.orphaned_in_store@, report.untracked_on_fs@),
    {
        proof {
            use_type_invariant(self);
        }
        let mut orphaned: Vec<String> = Vec::new();
        let mut i: usize = 0;
        while i < self.sources.len()
            invariant
                i <= self.sources@.len(),
                names_unique(self.sources@),
                forall|a: int| 0 <= a < orphaned@.len() ==> exists|j: int| 0 <= j < i && (#[trigger] orphaned@[a])@
                    == self.sources@[j].source_name@ && !names_of(fs_sources@).contains(orphaned@[a]@),
                forall|j: int| 0 <= j < i && !names_of(fs_sources@).contains(self.sources@[j].source_name@) ==> exists|a: int|
                    0 <= a < orphaned@.len() && (#[trigger] orphaned@[a])@ == self.sources@[j].source_name@,
                forall|a: int, b: int|
                    0 <= a < orphaned@.len() && 0 <= b < orphaned@.len() && a != b ==> (#[trigger] orphaned@[a])@ != (
                    #[trigger] orphaned@[b])@,
            decreases self.sources@.len() - i,
        {
            let name = &self.sources[i].source_name;
            if !contains_name(fs_sources, name) {
                let ghost before = orphaned@;
                proof {
                    assert forall|a: int| 0 <= a < before.len() implies before[a]@ != name@ by {
                        let j = choose|j: int| 0 <= j < i && (#[trigger] before[a])@ == self.sources@[j].source_name@
                            && !names_of(fs_sources@).contains(before[a]@);
                        assert(self.sources@[j].source_name@ != self.sources@[i as int].source_name@);
                    }
                }
                orphaned.push(name.clone());
                proof {
                    assert forall|a: int| 0 <= a < orphaned@.len() implies exists|j: int| 0 <= j < i + 1 && (#[trigger] orphaned@[a])@
                        == self.sources@[j].source_name@ && !names_of(fs_sources@).contains(orphaned@[a]@) by {
                        if a < before.len() {
                            assert(orphaned@[a] == before[a]);
                        } else {
                            assert(orphaned@[a]@ == self.sources@[i as int].source_name@);
                        }
                    }
                    assert forall|j: int| 0 <= j < i + 1 && !names_of(fs_sources@).contains(self.sources@[j].source_name@) implies exists|a: int|
                        0 <= a < orphaned@.len() && (#[trigger] orphaned@[a])@ == self.sources@[j].source_name@ by {
                        if j < i {
                            let a = choose|a: int| 0 <= a < before.len() && (#[trigger] before[a])@ == self.sources@[j].source_name@;
                            assert(orphaned@[a] == before[a]);
                        } else {
                            assert(orphaned@[before.len() as int]@ == self.sources@[j].source_name@);
                        }
                    }
                }
            }
            i = i + 1;
        }
        let mut untracked: Vec<String> = Vec::new();
        let mut k: usize = 0;
        while k < fs_sources.len()
            invariant
                k <= fs_sources@.len(),
                untracked@ == fs_sources@.take(k as int).filter(|n: String| !self@.dom().contains(n@)),
            decreases fs_sources@.len() - k,
        {
            let n = &fs_sources[k];
            proof {
                assert(fs_sources@.take(k + 1).drop_last() == fs_sources@.take(k as int));
                reveal(Seq::filter);
            }
            if !self.source_exists(n.as_str()) {
                untracked.push(n.clone());
            }
            k = k + 1;
        }
        proof {
            assert(fs_sources@.take(fs_sources@.len() as int) == fs_sources@);
            assert forall|a: int| 0 <= a < orphaned@.len() implies {
                let k = (#[trigger] orphaned@[a])@;
                self@.dom().contains(k) && !names_of(fs_sources@).contains(k)
            } by {
                let j = choose|j: int| 0 <= j < i && (#[trigger] orphaned@[a])@ == self.sources@[j].source_name@
                    && !names_of(fs_sources@).contains(orphaned@[a]@);
                lemma_pos_of_index(self.sources@, j);
            }
        }
        let report = SyncReport { orphaned_in_store: orphaned, untracked_on_fs: untracked };
        proof {
            assert forall|k: Seq<char>| self@.dom().contains(k) && !names_of(fs_sources@).contains(k) implies exists|i: int|
                0 <= i < report.orphaned_in_store@.len() && (#[trigger] report.orphaned_in_store@[i])@ == k by {
                let j = source_pos(self.sources@, k)->0;
                assert(self.sources@[j].source_name@ == k);
                let a = choose|a: int| 0 <= a < orphaned@.len() && (#[trigger] orphaned@[a])@ == self.sources@[j].source_name@;
                assert(report.orphaned_in_store@[a]@ == k);
            }
        }
        report
    }
}

} // verus!
