//! Sources and the vector bases (databases) they hold.

use vstd::prelude::*;
use crate::metrics::Metrics;
use crate::stamps::{new_uuid, now_rfc3339, is_uuid_v4_text, is_utc_rfc3339_text};

verus! {

/// A vector database within a source.
pub struct VectorBase {
    pub vb_id: String,
    pub vb_name: String,
    pub dimension: u32,
    pub node_count: u32,
    pub created_at: String,
    pub last_queried_at: String,
    pub metric_type: Metrics,
    /// Hours between scheduled backups: `0` inherits the source's
    /// setting, `-1` disables backups.
    pub backup_interval_hours: i32,
    /// When the last backup was taken (RFC 3339).
    pub last_backup_at: Option<String>,
    /// When the next scheduled backup is due (RFC 3339).
    pub will_backup_at: Option<String>,
}

/// A data source: a named group of vector bases.
pub struct Source {
    pub src_id: String,
    pub source_name: String,
    pub vector_bases: Vec<VectorBase>,
    pub created_at: String,
    /// Hours between scheduled backups: `0` uses the server default, `-1`
    /// disables backups.
    pub backup_interval_hours: i32,
}

/// The abstract value of a source: its vector bases as a sequence.
pub struct SourceView {
    pub src_id: String,
    pub source_name: String,
    pub vector_bases: Seq<VectorBase>,
    pub created_at: String,
    pub backup_interval_hours: i32,
}

impl View for Source {
    type V = SourceView;

    open spec fn view(&self) -> SourceView {
        SourceView {
            src_id: self.src_id,
            source_name: self.source_name,
            vector_bases: self.vector_bases@,
            created_at: self.created_at,
            backup_interval_hours: self.backup_interval_hours,
        }
    }
}

impl Clone for VectorBase {
    fn clone(&self) -> (r: Self)
        ensures
            r == *self,
    {
        VectorBase {
            vb_id: self.vb_id.clone(),
            vb_name: self.vb_name.clone(),
            dimension: self.dimension,
            node_count: self.node_count,
            created_at: self.created_at.clone(),
            last_queried_at: self.last_queried_at.clone(),
            metric_type: self.metric_type,
            backup_interval_hours: self.backup_interval_hours,
            last_backup_at: clone_opt_string(&self.last_backup_at),
            will_backup_at: clone_opt_string(&self.will_backup_at),
        }
    }
}

fn clone_opt_string(s: &Option<String>) -> (r: Option<String>)
    ensures
        r == *s,
{
    match s {
        Some(t) => Some(t.clone()),
        None => None,
    }
}

/// Copies a list of vector bases.
pub fn clone_vector_bases(v: &Vec<VectorBase>) -> (r: Vec<VectorBase>)
    ensures
        r@ == v@,
{
    let mut r: Vec<VectorBase> = Vec::new();
    let mut i: usize = 0;
    while i < v.len()
        invariant
            i <= v@.len(),
            r@ == v@.take(i as int),
        decreases v@.len() - i,
    {
        r.push(v[i].clone());
        proof {
            assert(v@.take(i + 1) == v@.take(i as int).push(v@[i as int]));
        }
        i = i + 1;
    }
    proof {
        assert(v@.take(v@.len() as int) == v@);
    }
    r
}

impl Clone for Source {
    fn clone(&self) -> (r: Self)
        ensures
            r@ == self@,
    {
        Source {
            src_id: self.src_id.clone(),
            source_name: self.source_name.clone(),
            vector_bases: clone_vector_bases(&self.vector_bases),
            created_at: self.created_at.clone(),
            backup_interval_hours: self.backup_interval_hours,
        }
    }
}

/// Index of the first vector base whose name is `name`.
pub open spec fn first_named(vbs: Seq<VectorBase>, name: Seq<char>) -> Option<int> {
    if exists|i: int| 0 <= i < vbs.len() && (#[trigger] vbs[i]).vb_name@ == name {
        let i = choose|i: int|
            0 <= i < vbs.len() && (#[trigger] vbs[i]).vb_name@ == name && forall|j: int|
                0 <= j < i ==> (#[trigger] vbs[j]).vb_name@ != name;
        Some(i)
    } else {
        None
    }
}

/// Index of the first vector base whose identifier is `id`.
pub open spec fn first_with_id(vbs: Seq<VectorBase>, id: Seq<char>) -> Option<int> {
    if exists|i: int| 0 <= i < vbs.len() && (#[trigger] vbs[i]).vb_id@ == id {
        let i = choose|i: int|
            0 <= i < vbs.len() && (#[trigger] vbs[i]).vb_id@ == id && forall|j: int|
                0 <= j < i ==> (#[trigger] vbs[j]).vb_id@ != id;
        Some(i)
    } else {
        None
    }
}

/// `i` is the first index whose name is `name`.
pub open spec fn is_first_named(vbs: Seq<VectorBase>, name: Seq<char>, i: int) -> bool {
    &&& 0 <= i < vbs.len()
    &&& vbs[i].vb_name@ == name
    &&& forall|j: int| 0 <= j < i ==> (#[trigger] vbs[j]).vb_name@ != name
}

/// `i` is the first index whose identifier is `id`.
pub open spec fn is_first_with_id(vbs: Seq<VectorBase>, id: Seq<char>, i: int) -> bool {
    &&& 0 <= i < vbs.len()
    &&& vbs[i].vb_id@ == id
    &&& forall|j: int| 0 <= j < i ==> (#[trigger] vbs[j]).vb_id@ != id
}

/// The first-match index is the one `first_named` picks.
pub proof fn lemma_first_named(vbs: Seq<VectorBase>, name: Seq<char>, i: int)
    requires
        is_first_named(vbs, name, i),
    ensures
        first_named(vbs, name) == Some(i),
{
    assert(vbs[i].vb_name@ == name);
    let k = choose|k: int|
        0 <= k < vbs.len() && (#[trigger] vbs[k]).vb_name@ == name && forall|j: int|
            0 <= j < k ==> (#[trigger] vbs[j]).vb_name@ != name;
    assert(is_first_named(vbs, name, i));
    if k < i {
        assert(vbs[k].vb_name@ != name);
    } else if i < k {
        assert(vbs[i].vb_name@ != name);
    }
}

/// The first-match index is the one `first_with_id` picks.
pub proof fn lemma_first_with_id(vbs: Seq<VectorBase>, id: Seq<char>, i: int)
    requires
        is_first_with_id(vbs, id, i),
    ensures
        first_with_id(vbs, id) == Some(i),
{
    assert(vbs[i].vb_id@ == id);
    let k = choose|k: int|
        0 <= k < vbs.len() && (#[trigger] vbs[k]).vb_id@ == id && forall|j: int|
            0 <= j < k ==> (#[trigger] vbs[j]).vb_id@ != id;
    if k < i {
        assert(vbs[k].vb_id@ != id);
    } else if i < k {
        assert(vbs[i].vb_id@ != id);
    }
}

/// Finds the first vector base named `name`.
pub(crate) fn position_by_name(vbs: &Vec<VectorBase>, name: &String) -> (r: Option<usize>)
    ensures
        match r {
            Some(i) => is_first_named(vbs@, name@, i as int),
            None => first_named(vbs@, name@) is None,
        },
        r matches Some(i) ==> first_named(vbs@, name@) == Some(i as int),
{
    let mut i: usize = 0;
    while i < vbs.len()
        invariant
            i <= vbs@.len(),
            forall|j: int| 0 <= j < i ==> (#[trigger] vbs@[j]).vb_name@ != name@,
        decreases vbs@.len() - i,
    {
        if vbs[i].vb_name == *name {
            proof {
                lemma_first_named(vbs@, name@, i as int);
            }
            return Some(i);
        }
        i = i + 1;
    }
    None
}

/// Finds the first vector base whose identifier is `id`.
fn position_by_id(vbs: &Vec<VectorBase>, id: &String) -> (r: Option<usize>)
    ensures
        match r {
            Some(i) => is_first_with_id(vbs@, id@, i as int),
            None => first_with_id(vbs@, id@) is None,
        },
        r matches Some(i) ==> first_with_id(vbs@, id@) == Some(i as int),
{
    let mut i: usize = 0;
    while i < vbs.len()
        invariant
            i <= vbs@.len(),
            forall|j: int| 0 <= j < i ==> (#[trigger] vbs@[j]).vb_id@ != id@,
        decreases vbs@.len() - i,
    {
        if vbs[i].vb_id == *id {
            proof {
                lemma_first_with_id(vbs@, id@, i as int);
            }
            return Some(i);
        }
        i = i + 1;
    }
    None
}

impl Source {
    /// A new source with the given identifier, name and creation time, no
    /// vector bases, and the default backup interval.
    pub fn new(src_id: String, source_name: String, created_at: String) -> (s: Self)
        ensures
            s.src_id == src_id,
            s.source_name == source_name,
            s.created_at == created_at,
            s.vector_bases@.len() == 0,
            s.backup_interval_hours == 0,
    {
        Source { src_id, source_name, vector_bases: Vec::new(), created_at, backup_interval_hours: 0 }
    }

    /// A new source with a fresh random identifier and the current time.
    pub fn new_with_generated(source_name: String) -> (s: Self)
        ensures
            s.source_name == source_name,
            is_uuid_v4_text(s.src_id@),
            s.vector_bases@.len() == 0,
            s.backup_interval_hours == 0,
    {
        let src_id = new_uuid();
        let created_at = now_rfc3339();
        Source::new(src_id, source_name, created_at)
    }

    /// Appends a vector base.
    pub fn add_vector_base(&mut self, vb: VectorBase)
        ensures
            final(self)@ == (SourceView { vector_bases: old(self)@.vector_bases.push(vb), ..old(self)@ }),
    {
        self.vector_bases.push(vb);
    }

    /// Removes the first vector base whose identifier is `vb_id` and returns
    /// it; `None`, with nothing changed, when there is none.
    pub fn remove_vector_base(&mut self, vb_id: &str) -> (r: Option<VectorBase>)
        ensures
            match first_with_id(old(self)@.vector_bases, vb_id@) {
                Some(i) => r == Some(old(self)@.vector_bases[i]) && final(self)@ == (SourceView {
                    vector_bases: old(self)@.vector_bases.remove(i),
                    ..old(self)@
                }),
                None => r is None && final(self)@ == old(self)@,
            },
    {
        let key = vb_id.to_owned();
        match position_by_id(&self.vector_bases, &key) {
            Some(i) => Some(self.vector_bases.remove(i)),
            None => None,
        }
    }

    /// The first vector base named `vb_name`.
    pub fn find_vector_base(&self, vb_name: &str) -> (r: Option<&VectorBase>)
        ensures
            match first_named(self@.vector_bases, vb_name@) {
                Some(i) => r == Some(&self@.vector_bases[i]),
                None => r is None,
            },
    {
        let key = vb_name.to_owned();
        match position_by_name(&self.vector_bases, &key) {
            Some(i) => Some(&self.vector_bases[i]),
            None => None,
        }
    }

    /// The first vector base named `vb_name`, for changing it in place.
    pub fn find_vector_base_mut(&mut self, vb_name: &str) -> (r: Option<&mut VectorBase>)
        ensures
            match first_named(old(self)@.vector_bases, vb_name@) {
                Some(i) => r.is_some() && *r.unwrap() == old(self)@.vector_bases[i] && final(self)@ == (SourceView {
                    vector_bases: old(self)@.vector_bases.update(i, *final(r.unwrap())),
                    ..old(self)@
                }),
                None => r.is_none() && final(self)@ == old(self)@,
            },
    {
        let key = vb_name.to_owned();
        match position_by_name(&self.vector_bases, &key) {
            Some(i) => Some(&mut self.vector_bases[i]),
            None => None,
        }
    }

    /// Replaces the first vector base whose identifier is that of
    /// `updated_vb`; `false`, with nothing changed, when there is none.
    pub fn update_vector_base(&mut self, updated_vb: VectorBase) -> (found: bool)
        ensures
            match first_with_id(old(self)@.vector_bases, updated_vb.vb_id@) {
                Some(i) => found && final(self)@ == (SourceView {
                    vector_bases: old(self)@.vector_bases.update(i, updated_vb),
                    ..old(self)@
                }),
                None => !found && final(self)@ == old(self)@,
            },
    {
        match position_by_id(&self.vector_bases, &updated_vb.vb_id) {
            Some(i) => {
                self.vector_bases.set(i, updated_vb);
                true
            },
            None => false,
        }
    }
}

impl VectorBase {
    /// A new, empty vector base with a fresh random identifier, the current
    /// time as creation and last-query time, and inherited backup settings.
    pub fn new(vb_name: String, dimension: u32, metric_type: Metrics) -> (vb: Self)
        ensures
            vb.vb_name == vb_name,
            vb.dimension == dimension,
            vb.metric_type == metric_type,
            vb.node_count == 0,
            vb.created_at == vb.last_queried_at,
            is_uuid_v4_text(vb.vb_id@),
            vb.backup_interval_hours == 0,
            vb.last_backup_at is None,
            vb.will_backup_at is None,
    {
        let timestamp = now_rfc3339();
        VectorBase {
            vb_id: new_uuid(),
            vb_name,
            dimension,
            node_count: 0,
            created_at: timestamp.clone(),
            last_queried_at: timestamp,
            metric_type,
            backup_interval_hours: 0,
            last_backup_at: None,
            will_backup_at: None,
        }
    }

    /// Sets the last-query time to `time`; nothing else changes.
    pub fn touch_at(&mut self, time: &str)
        ensures
            *final(self) == (VectorBase { last_queried_at: final(self).last_queried_at, ..*old(self) }),
            final(self).last_queried_at@ == time@,
    {
        self.last_queried_at = time.to_owned();
    }

    /// Sets the last-query time to now; nothing else changes.
    pub fn touch(&mut self)
        ensures
            *final(self) == (VectorBase { last_queried_at: final(self).last_queried_at, ..*old(self) }),
            is_utc_rfc3339_text(final(self).last_queried_at@),
    {
        let now = now_rfc3339();
        self.touch_at(now.as_str());
    }

    /// Sets the node count to `count` and the last-query time to `time`;
    /// nothing else changes.
    pub fn set_node_count_at(&mut self, count: u32, time: &str)
        ensures
            *final(self) == (VectorBase {
                node_count: count,
                last_queried_at: final(self).last_queried_at,
                ..*old(self)
            }),
            final(self).last_queried_at@ == time@,
    {
        self.node_count = count;
        self.touch_at(time);
    }

    /// Sets the node count and the last-query time (now); nothing else
    /// changes.
    pub fn set_node_count(&mut self, count: u32)
        ensures
            *final(self) == (VectorBase {
                node_count: count,
                last_queried_at: final(self).last_queried_at,
                ..*old(self)
            }),
            is_utc_rfc3339_text(final(self).last_queried_at@),
    {
        let now = now_rfc3339();
        self.set_node_count_at(count, now.as_str());
    }
}

impl Default for Source {
    /// The default source, `default_src`, with a fresh identifier.
    fn default() -> (s: Self)
        ensures
            s.source_name@ == "default_src"@,
            is_uuid_v4_text(s.src_id@),
            s.vector_bases@.len() == 0,
            s.backup_interval_hours == 0,
    {
        Source::new_with_generated(String::from_str("default_src"))
    }
}

impl Default for VectorBase {
    /// The default vector base, `default_vb`: 1024 dimensions, cosine
    /// similarity, no nodes.
    fn default() -> (vb: Self)
        ensures
            vb.vb_name@ == "default_vb"@,
            vb.dimension == 1024,
            vb.metric_type == Metrics::Cosine,
            vb.node_count == 0,
            is_uuid_v4_text(vb.vb_id@),
    {
        VectorBase::new(String::from_str("default_vb"), 1024, Metrics::Cosine)
    }
}

} // verus!
