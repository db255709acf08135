//! Attribute sets: a finite name-to-value mapping with a remove marker.
//!
//! The executable representation is an association vector with unique keys;
//! its view is the [`crate::model::AttrMap`] finite map. The empty string as
//! a value is the remove marker: "unset this attribute when merged forward".

use vstd::prelude::*;
use vstd::string::StrSliceExecFns;
use vstd::string::StringExecFns;
use crate::model::AttrMap;
use crate::model::AttrsModel;
use crate::model::apply_rule_model;
use crate::model::attrs_blank;
use crate::model::compose_attr_model;
use crate::model::invert_attr_model;
use crate::model::map_is_blank;
use crate::model::merge_model;
use crate::model::norm_map;
use crate::model::transform_attr_model;
use crate::model::transform_data_model;
use crate::operation::Operation;

verus! {

/// One attribute entry: a name and its value.
pub struct AttrEntry {
    pub key: String,
    pub value: String,
}

/// The map a run of entries denotes; a later entry wins over an earlier one
/// with the same key.
pub open spec fn entries_map(s: Seq<AttrEntry>) -> AttrMap
    decreases s.len(),
{
    if s.len() == 0 {
        Map::empty()
    } else {
        entries_map(s.drop_last()).insert(s.last().key@, s.last().value@)
    }
}

/// An attribute map: association vector with pairwise distinct keys.
pub struct AttributesData {
    pub entries: Vec<AttrEntry>,
}

impl View for AttributesData {
    type V = AttrMap;

    open spec fn view(&self) -> AttrMap {
        entries_map(self.entries@)
    }
}

/// Pairwise distinct keys.
pub open spec fn entries_unique(s: Seq<AttrEntry>) -> bool {
    forall|i: int, j: int|
        0 <= i < j < s.len() ==> (#[trigger] s[i]).key@ != (#[trigger] s[j]).key@
}

/// The overlay of `o` on `m` that `merge` produces: remove-marked entries of
/// `m` erase, its other entries win, and the rest of `o` passes through.
pub open spec fn merged_map(m: AttrMap, o: AttrMap) -> AttrMap {
    Map::new(
        |k: Seq<char>|
            if m.contains_key(k) {
                m[k] != Seq::<char>::empty()
            } else {
                o.contains_key(k)
            },
        |k: Seq<char>| if m.contains_key(k) {
            m[k]
        } else {
            o[k]
        },
    )
}

/// A key occurs in the denoted map exactly when some entry holds it, and the
/// map then carries that entry's value.
pub proof fn lemma_entries_map_index(s: Seq<AttrEntry>, i: int)
    requires
        entries_unique(s),
        0 <= i < s.len(),
    ensures
        entries_map(s).contains_key(s[i].key@),
        entries_map(s)[s[i].key@] == s[i].value@,
    decreases s.len(),
{
    if i == s.len() - 1 {
    } else {
        lemma_entries_map_index(s.drop_last(), i);
    }
}

pub proof fn lemma_entries_map_domain(s: Seq<AttrEntry>, k: Seq<char>)
    requires
        entries_map(s).contains_key(k),
    ensures
        exists|i: int| 0 <= i < s.len() && (#[trigger] s[i]).key@ == k,
    decreases s.len(),
{
    if s.len() > 0 {
        if s.last().key@ == k {
            assert(s[s.len() - 1].key@ == k);
        } else {
            lemma_entries_map_domain(s.drop_last(), k);
        }
    }
}

/// In a run with unique keys, no entry holds a key the map lacks.
pub proof fn lemma_no_key(s: Seq<AttrEntry>, k: Seq<char>)
    requires
        entries_unique(s),
        !entries_map(s).contains_key(k),
    ensures
        forall|i: int| 0 <= i < s.len() ==> (#[trigger] s[i]).key@ != k,
{
    assert forall|i: int| 0 <= i < s.len() implies (#[trigger] s[i]).key@ != k by {
        if s[i].key@ == k {
            lemma_entries_map_index(s, i);
        }
    }
}

/// Appending an entry inserts its pair into the denoted map.
pub proof fn lemma_entries_map_push(s: Seq<AttrEntry>, e: AttrEntry)
    ensures
        entries_map(s.push(e)) == entries_map(s).insert(e.key@, e.value@),
{
    assert(s.push(e).drop_last() =~= s);
    assert(s.push(e).last() == e);
}

/// A prefix extended by one entry inserts that entry's pair.
pub proof fn lemma_entries_map_take_step(s: Seq<AttrEntry>, i: int)
    requires
        0 <= i < s.len(),
    ensures
        entries_map(s.take(i + 1)) == entries_map(s.take(i)).insert(s[i].key@, s[i].value@),
{
    assert(s.take(i + 1).drop_last() =~= s.take(i));
    assert(s.take(i + 1).last() == s[i]);
}

/// Uniqueness survives appending a fresh key.
pub proof fn lemma_uniq_push(s: Seq<AttrEntry>, e: AttrEntry)
    requires
        entries_unique(s),
        forall|i: int| 0 <= i < s.len() ==> (#[trigger] s[i]).key@ != e.key@,
    ensures
        entries_unique(s.push(e)),
{
    let t = s.push(e);
    assert forall|i: int, j: int| 0 <= i < j < t.len() implies (#[trigger] t[i]).key@
        != (#[trigger] t[j]).key@ by {
        if j < s.len() {
            assert(t[i] == s[i] && t[j] == s[j]);
        } else {
            assert(t[j] == e && t[i] == s[i]);
        }
    }
}

/// Uniqueness survives removal.
pub proof fn lemma_uniq_remove(s: Seq<AttrEntry>, i: int)
    requires
        entries_unique(s),
        0 <= i < s.len(),
    ensures
        entries_unique(s.remove(i)),
{
    s.remove_ensures(i);
    let t = s.remove(i);
    assert forall|a: int, b: int| 0 <= a < b < t.len() implies (#[trigger] t[a]).key@
        != (#[trigger] t[b]).key@ by {
        let a2: int = if a < i { a } else { a + 1 };
        let b2: int = if b < i { b } else { b + 1 };
        assert(t[a] == s[a2] && t[b] == s[b2]);
    }
}

/// Removing the entry at `i` removes exactly its key from the denoted map.
pub proof fn lemma_entries_map_remove(s: Seq<AttrEntry>, i: int)
    requires
        entries_unique(s),
        0 <= i < s.len(),
    ensures
        entries_map(s.remove(i)) =~= entries_map(s).remove(s[i].key@),
    decreases s.len(),
{
    if i == s.len() - 1 {
        assert(s.remove(i) =~= s.drop_last());
        if entries_map(s.drop_last()).contains_key(s[i].key@) {
            lemma_entries_map_domain(s.drop_last(), s[i].key@);
            assert(false);
        }
    } else {
        assert(s.remove(i).drop_last() =~= s.drop_last().remove(i));
        assert(s.remove(i).last() == s.last());
        lemma_entries_map_remove(s.drop_last(), i);
    }
}

impl AttributesData {
    /// Unique keys: the representation invariant of the association vector.
    pub open spec fn wf(&self) -> bool {
        entries_unique(self.entries@)
    }

    pub fn new() -> (r: AttributesData)
        ensures
            r@ == Map::<Seq<char>, Seq<char>>::empty(),
            r.wf(),
    {
        AttributesData { entries: Vec::new() }
    }

    /// Index of the entry holding `key`, if any.
    fn find(&self, key: &String) -> (r: Option<usize>)
        requires
            self.wf(),
        ensures
            match r {
                Some(i) => i < self.entries@.len() && self.entries@[i as int].key@ == key@
                    && self@.contains_key(key@) && self@[key@] == self.entries@[i as int].value@,
                None => !self@.contains_key(key@),
            },
    {
        let n = self.entries.len();
        let mut i: usize = 0;
        while i < n
            invariant
                self.wf(),
                n == self.entries@.len(),
                i <= n,
                forall|j: int| 0 <= j < i ==> (#[trigger] self.entries@[j]).key@ != key@,
            decreases n - i,
        {
            if self.entries[i].key == *key {
                proof {
                    lemma_entries_map_index(self.entries@, i as int);
                }
                return Some(i);
            }
            i = i + 1;
        }
        proof {
            if self@.contains_key(key@) {
                lemma_entries_map_domain(self.entries@, key@);
            }
        }
        None
    }

    pub fn contains_key(&self, key: &String) -> (r: bool)
        requires
            self.wf(),
        ensures
            r == self@.contains_key(key@),
    {
        self.find(key).is_some()
    }

    /// The value stored under `key`, cloned out.
    pub fn get(&self, key: &String) -> (r: Option<String>)
        requires
            self.wf(),
        ensures
            match r {
                Some(v) => self@.contains_key(key@) && self@[key@] == v@,
                None => !self@.contains_key(key@),
            },
    {
        match self.find(key) {
            Some(i) => Some(self.entries[i].value.clone()),
            None => None,
        }
    }

    /// Insert or overwrite.
    pub fn insert(&mut self, key: String, value: String)
        requires
            old(self).wf(),
        ensures
            final(self).wf(),
            final(self)@ == old(self)@.insert(key@, value@),
    {
        let ghost k = key@;
        let ghost v = value@;
        match self.find(&key) {
            Some(i) => {
                proof {
                    lemma_entries_map_remove(self.entries@, i as int);
                    lemma_uniq_remove(self.entries@, i as int);
                }
                self.entries.remove(i);
                let ghost mid = self.entries@;
                let e = AttrEntry { key, value };
                let ghost ge = e;
                proof {
                    lemma_no_key(mid, k);
                }
                self.entries.push(e);
                proof {
                    lemma_entries_map_push(mid, ge);
                    lemma_uniq_push(mid, ge);
                    assert(self@ =~= old(self)@.insert(k, v));
                }
            },
            None => {
                let ghost mid = self.entries@;
                let e = AttrEntry { key, value };
                let ghost ge = e;
                proof {
                    lemma_no_key(mid, k);
                }
                self.entries.push(e);
                proof {
                    lemma_entries_map_push(mid, ge);
                    lemma_uniq_push(mid, ge);
                    assert(self@ =~= old(self)@.insert(k, v));
                }
            },
        }
    }

    /// Remove the entry holding `key`, if any.
    pub fn remove(&mut self, key: &String)
        requires
            old(self).wf(),
        ensures
            final(self).wf(),
            final(self)@ == old(self)@.remove(key@),
    {
        match self.find(key) {
            Some(i) => {
                proof {
                    lemma_entries_map_remove(self.entries@, i as int);
                }
                self.entries.remove(i);
            },
            None => {
                proof {
                    assert(self@ =~= old(self)@.remove(key@));
                }
            },
        }
    }

    /// True when no entry carries an effective value: every value present is
    /// the remove marker.
    pub fn is_empty(&self) -> (r: bool)
        requires
            self.wf(),
        ensures
            r == map_is_blank(self@),
    {
        let n = self.entries.len();
        let mut i: usize = 0;
        while i < n
            invariant
                self.wf(),
                n == self.entries@.len(),
                i <= n,
                forall|j: int|
                    0 <= j < i ==> (#[trigger] self.entries@[j]).value@ == Seq::<char>::empty(),
            decreases n - i,
        {
            if !self.entries[i].value.as_str().is_empty() {
                proof {
                    lemma_entries_map_index(self.entries@, i as int);
                }
                return false;
            }
            proof {
                assert(self.entries@[i as int].value@ =~= Seq::<char>::empty());
            }
            i = i + 1;
        }
        proof {
            assert forall|k: Seq<char>| self@.contains_key(k) implies self@[k]
                == Seq::<char>::empty() by {
                lemma_entries_map_domain(self.entries@, k);
                let w = choose|j: int| 0 <= j < self.entries@.len() && (#[trigger] self.entries@[j]).key@ == k;
                lemma_entries_map_index(self.entries@, w);
            }
        }
        true
    }

    /// Drop every remove-marked entry.
    pub fn remove_empty(&mut self)
        requires
            old(self).wf(),
        ensures
            final(self).wf(),
            final(self)@ == norm_map(old(self)@),
    {
        let n = self.entries.len();
        let mut kept: Vec<AttrEntry> = Vec::new();
        let mut i: usize = 0;
        while i < n
            invariant
                self.wf(),
                n == self.entries@.len(),
                i <= n,
                entries_unique(kept@),
                entries_map(kept@) =~= norm_map(entries_map(self.entries@.take(i as int))),
            decreases n - i,
        {
            let keep = !self.entries[i].value.as_str().is_empty();
            let ghost pre = self.entries@.take(i as int);
            let ghost post = self.entries@.take(i as int + 1);
            let ghost cur = self.entries@[i as int];
            proof {
                lemma_entries_map_take_step(self.entries@, i as int);
                if entries_map(pre).contains_key(cur.key@) {
                    lemma_entries_map_domain(pre, cur.key@);
                    assert(false);
                }
                lemma_no_key(kept@, cur.key@);
            }
            if keep {
                let e = AttrEntry {
                    key: self.entries[i].key.clone(),
                    value: self.entries[i].value.clone(),
                };
                proof {
                    lemma_uniq_push(kept@, e);
                    lemma_entries_map_push(kept@, e);
                }
                kept.push(e);
            }
            proof {
                if !keep {
                    assert(cur.value@ =~= Seq::<char>::empty());
                }
                assert(entries_map(kept@) =~= norm_map(entries_map(post)));
            }
            i = i + 1;
        }
        proof {
            assert(self.entries@.take(n as int) =~= self.entries@);
        }
        self.entries = kept;
    }

    /// Overlay `other` on this map: entries of `other` win per key.
    pub fn extend(&mut self, other: AttributesData)
        requires
            old(self).wf(),
            other.wf(),
        ensures
            final(self).wf(),
            final(self)@ == old(self)@.union_prefer_right(other@),
    {
        let n = other.entries.len();
        let mut i: usize = 0;
        let ghost base = self@;
        while i < n
            invariant
                self.wf(),
                other.wf(),
                n == other.entries@.len(),
                i <= n,
                self@ =~= base.union_prefer_right(entries_map(other.entries@.take(i as int))),
            decreases n - i,
        {
            let e = AttrEntry {
                key: other.entries[i].key.clone(),
                value: other.entries[i].value.clone(),
            };
            proof {
                lemma_entries_map_take_step(other.entries@, i as int);
            }
            self.insert(e.key, e.value);
            proof {
                let post = other.entries@.take(i as int + 1);
                assert(self@ =~= base.union_prefer_right(entries_map(post)));
            }
            i = i + 1;
        }
        proof {
            assert(other.entries@.take(n as int) =~= other.entries@);
            assert(self@ =~= base.union_prefer_right(other@));
        }
    }

    /// Merge this map forward onto `other`: this map's remove-marked entries
    /// erase entries of `other`, its effective entries win, and the rest of
    /// `other` passes through.
    pub fn merge(&mut self, other: Option<AttributesData>)
        requires
            old(self).wf(),
            other is Some ==> other->Some_0.wf(),
        ensures
            final(self).wf(),
            match other {
                None => final(self)@ == old(self)@,
                Some(o) => final(self)@ == merged_map(old(self)@, o@),
            },
    {
        match other {
            None => {},
            Some(o) => {
                let mut result = o;
                let n = self.entries.len();
                let mut i: usize = 0;
                proof {
                    assert(result@ =~= merged_map(entries_map(self.entries@.take(0)), result@));
                }
                let ghost orig = result@;
                while i < n
                    invariant
                        self.wf(),
                        result.wf(),
                        n == self.entries@.len(),
                        i <= n,
                        result@ =~= merged_map(entries_map(self.entries@.take(i as int)), orig),
                    decreases n - i,
                {
                    let ghost pre = self.entries@.take(i as int);
                    let ghost post = self.entries@.take(i as int + 1);
                    let ghost cur = self.entries@[i as int];
                    proof {
                        lemma_entries_map_take_step(self.entries@, i as int);
                        if entries_map(pre).contains_key(cur.key@) {
                            lemma_entries_map_domain(pre, cur.key@);
                            assert(false);
                        }
                    }
                    let blank = self.entries[i].value.as_str().is_empty();
                    if blank {
                        let k = self.entries[i].key.clone();
                        result.remove(&k);
                    } else {
                        let e = AttrEntry {
                            key: self.entries[i].key.clone(),
                            value: self.entries[i].value.clone(),
                        };
                        result.insert(e.key, e.value);
                    }
                    proof {
                        if blank {
                            assert(cur.value@ =~= Seq::<char>::empty());
                        }
                        assert(result@ =~= merged_map(entries_map(post), orig));
                    }
                    i = i + 1;
                }
                proof {
                    assert(self.entries@.take(n as int) =~= self.entries@);
                }
                self.entries = result.entries;
            },
        }
    }

    /// A structurally fresh copy with the same denotation.
    pub fn duplicate(&self) -> (r: AttributesData)
        requires
            self.wf(),
        ensures
            r.wf(),
            r@ == self@,
            r.entries@.len() == self.entries@.len(),
    {
        let n = self.entries.len();
        let mut out: Vec<AttrEntry> = Vec::new();
        let mut i: usize = 0;
        while i < n
            invariant
                self.wf(),
                n == self.entries@.len(),
                i <= n,
                out@.len() == i,
                forall|j: int|
                    0 <= j < i ==> (#[trigger] out@[j]).key@ == self.entries@[j].key@
                        && out@[j].value@ == self.entries@[j].value@,
            decreases n - i,
        {
            out.push(
                AttrEntry {
                    key: self.entries[i].key.clone(),
                    value: self.entries[i].value.clone(),
                },
            );
            i = i + 1;
        }
        let r = AttributesData { entries: out };
        proof {
            lemma_entries_map_congruent(r.entries@, self.entries@);
        }
        r
    }
}

/// An attribute set: inherit from the surroundings, an explicit map, or
/// nothing.
pub enum Attributes {
    Follow,
    Custom(AttributesData),
    Empty,
}

impl View for Attributes {
    type V = AttrsModel;

    open spec fn view(&self) -> AttrsModel {
        match self {
            Attributes::Follow => AttrsModel::Follow,
            Attributes::Custom(d) => AttrsModel::Custom(d@),
            Attributes::Empty => AttrsModel::Empty,
        }
    }
}

impl Attributes {
    pub open spec fn wf(&self) -> bool {
        match self {
            Attributes::Custom(d) => d.wf(),
            _ => true,
        }
    }

    /// The explicit map, if this set carries one.
    pub fn data(&self) -> (r: Option<AttributesData>)
        requires
            self.wf(),
        ensures
            r is Some <==> self@ is Custom,
            r is Some ==> r->Some_0@ == self@->Custom_0 && r->Some_0.wf(),
    {
        match self {
            Attributes::Follow => None,
            Attributes::Custom(d) => Some(d.duplicate()),
            Attributes::Empty => None,
        }
    }

    /// True when the set describes no effective attribute.
    pub fn is_empty(&self) -> (r: bool)
        requires
            self.wf(),
        ensures
            r == attrs_blank(self@),
    {
        match self {
            Attributes::Follow => true,
            Attributes::Custom(d) => d.is_empty(),
            Attributes::Empty => true,
        }
    }

    /// A structurally fresh copy with the same model.
    pub fn duplicate(&self) -> (r: Attributes)
        requires
            self.wf(),
        ensures
            r@ == self@,
            r.wf(),
    {
        match self {
            Attributes::Follow => Attributes::Follow,
            Attributes::Custom(d) => Attributes::Custom(d.duplicate()),
            Attributes::Empty => Attributes::Empty,
        }
    }

    /// Model equality, decided on the representation.
    pub fn equals(&self, other: &Attributes) -> (r: bool)
        requires
            self.wf(),
            other.wf(),
        ensures
            r == (self@ == other@),
    {
        match (self, other) {
            (Attributes::Follow, Attributes::Follow) => true,
            (Attributes::Empty, Attributes::Empty) => true,
            (Attributes::Custom(a), Attributes::Custom(b)) => a.equals(b),
            _ => false,
        }
    }
}

impl AttributesData {
    /// Model equality, decided by containment both ways.
    pub fn equals(&self, other: &AttributesData) -> (r: bool)
        requires
            self.wf(),
            other.wf(),
        ensures
            r == (self@ == other@),
    {
        let n = self.entries.len();
        let mut i: usize = 0;
        while i < n
            invariant
                self.wf(),
                other.wf(),
                n == self.entries@.len(),
                i <= n,
                forall|j: int|
                    0 <= j < i ==> other@.contains_key((#[trigger] self.entries@[j]).key@)
                        && other@[self.entries@[j].key@] == self.entries@[j].value@,
            decreases n - i,
        {
            proof {
                lemma_entries_map_index(self.entries@, i as int);
            }
            match other.get(&self.entries[i].key) {
                None => {
                    return false;
                },
                Some(v) => {
                    if !(v == self.entries[i].value) {
                        return false;
                    }
                },
            }
            i = i + 1;
        }
        let m = other.entries.len();
        let mut j: usize = 0;
        while j < m
            invariant
                self.wf(),
                other.wf(),
                m == other.entries@.len(),
                j <= m,
                forall|t: int|
                    0 <= t < j ==> self@.contains_key((#[trigger] other.entries@[t]).key@),
            decreases m - j,
        {
            proof {
                lemma_entries_map_index(other.entries@, j as int);
            }
            if !self.contains_key(&other.entries[j].key) {
                return false;
            }
            j = j + 1;
        }
        proof {
            assert forall|k: Seq<char>| #[trigger]
                self@.contains_key(k) implies other@.contains_key(k) && self@[k] == other@[k] by {
                lemma_entries_map_domain(self.entries@, k);
                let w = choose|t: int|
                    0 <= t < self.entries@.len() && (#[trigger] self.entries@[t]).key@ == k;
                lemma_entries_map_index(self.entries@, w);
            }
            assert forall|k: Seq<char>| #[trigger]
                other@.contains_key(k) implies self@.contains_key(k) by {
                lemma_entries_map_domain(other.entries@, k);
            }
            assert(self@ =~= other@);
        }
        true
    }
}

/// Normalization of a released attribute value.
pub trait AttributesRule: Sized {
    /// What the input must satisfy.
    spec fn rule_pre(&self) -> bool;

    /// What normalization returns.
    spec fn rule_result(&self) -> AttrsModel;

    /// Drop remove-marked entries; collapse an emptied map.
    fn apply_rule(self) -> (r: Attributes)
        requires
            self.rule_pre(),
        ensures
            r@ == self.rule_result(),
            r.wf(),
    ;
}

impl AttributesRule for Attributes {
    open spec fn rule_pre(&self) -> bool {
        self.wf()
    }

    open spec fn rule_result(&self) -> AttrsModel {
        apply_rule_model(self@)
    }

    fn apply_rule(self) -> (r: Attributes) {
        match self {
            Attributes::Follow => Attributes::Follow,
            Attributes::Custom(data) => data.into_attributes(),
            Attributes::Empty => Attributes::Empty,
        }
    }
}

/// Normalization of an attribute map under construction.
pub trait AttributesDataRule: Sized {
    /// What the input must satisfy.
    spec fn data_rule_pre(&self) -> bool;

    /// How normalization relates the map before and after.
    spec fn data_rule_post(pre: Self, post: Self) -> bool;

    /// What releasing the map returns.
    spec fn into_result(pre: Self, r: Attributes) -> bool;

    /// Drop remove-marked entries in place.
    fn apply_rule(&mut self)
        requires
            old(self).data_rule_pre(),
        ensures
            Self::data_rule_post(*old(self), *final(self)),
    ;

    /// Normalize and release as an attribute value.
    fn into_attributes(self) -> (r: Attributes)
        requires
            self.data_rule_pre(),
        ensures
            Self::into_result(self, r),
    ;
}

impl AttributesDataRule for AttributesData {
    open spec fn data_rule_pre(&self) -> bool {
        self.wf()
    }

    open spec fn data_rule_post(pre: Self, post: Self) -> bool {
        post.wf() && post@ == norm_map(pre@)
    }

    open spec fn into_result(pre: Self, r: Attributes) -> bool {
        r.wf() && r@ == apply_rule_model(AttrsModel::Custom(pre@))
    }

    fn apply_rule(&mut self) {
        self.remove_empty();
    }

    fn into_attributes(self) -> (r: Attributes) {
        let ghost pre = self@;
        let mut d = self;
        d.remove_empty();
        proof {
            if map_is_blank(pre) {
                assert forall|k: Seq<char>| norm_map(pre).contains_key(k) implies norm_map(
                    pre,
                )[k] == Seq::<char>::empty() by {
                    assert(pre.contains_key(k) && pre[k] != Seq::<char>::empty());
                }
            } else {
                if !(exists|k: Seq<char>| #[trigger] pre.contains_key(k) && pre[k]
                    != Seq::<char>::empty()) {
                    assert forall|k: Seq<char>| pre.contains_key(k) implies pre[k]
                        == Seq::<char>::empty() by {
                        if pre[k] != Seq::<char>::empty() {
                            assert(pre.contains_key(k) && pre[k] != Seq::<char>::empty());
                        }
                    }
                    assert(map_is_blank(pre));
                }
                let w = choose|k: Seq<char>| #[trigger]
                    pre.contains_key(k) && pre[k] != Seq::<char>::empty();
                assert(norm_map(pre).contains_key(w));
                assert(norm_map(pre)[w] == pre[w]);
                assert(!map_is_blank(norm_map(pre)));
            }
        }
        if d.is_empty() {
            Attributes::Empty
        } else {
            Attributes::Custom(d)
        }
    }
}

/// Convenience builder for the common formatting attributes.
pub struct AttrsBuilder {
    pub inner: AttributesData,
}

impl AttrsBuilder {
    pub fn new() -> (r: AttrsBuilder)
        ensures
            r.inner.wf(),
            r.inner@ == Map::<Seq<char>, Seq<char>>::empty(),
    {
        AttrsBuilder { inner: AttributesData::new() }
    }

    /// Set bold, or mark it for removal.
    pub fn bold(self, bold: bool) -> (r: AttrsBuilder)
        requires
            self.inner.wf(),
        ensures
            r.inner.wf(),
            r.inner@ == self.inner@.insert("bold"@, if bold {
                "true"@
            } else {
                ""@
            }),
    {
        let mut inner = self.inner;
        let v = if bold {
            "true"
        } else {
            ""
        };
        inner.insert("bold".to_owned(), v.to_owned());
        AttrsBuilder { inner }
    }

    /// Set italic, or mark it for removal.
    pub fn italic(self, italic: bool) -> (r: AttrsBuilder)
        requires
            self.inner.wf(),
        ensures
            r.inner.wf(),
            r.inner@ == self.inner@.insert("italic"@, if italic {
                "true"@
            } else {
                ""@
            }),
    {
        let mut inner = self.inner;
        let v = if italic {
            "true"
        } else {
            ""
        };
        inner.insert("italic".to_owned(), v.to_owned());
        AttrsBuilder { inner }
    }

    /// Set underline.
    pub fn underline(self) -> (r: AttrsBuilder)
        requires
            self.inner.wf(),
        ensures
            r.inner.wf(),
            r.inner@ == self.inner@.insert("underline"@, "true"@),
    {
        let mut inner = self.inner;
        inner.insert("underline".to_owned(), "true".to_owned());
        AttrsBuilder { inner }
    }

    /// Release the accumulated entries as an attribute set.
    pub fn build(self) -> (r: Attributes)
        requires
            self.inner.wf(),
        ensures
            r.wf(),
            r@ == AttrsModel::Custom(self.inner@),
    {
        Attributes::Custom(self.inner)
    }
}

/// The attribute sets two optional operations carry, as the attribute
/// algebra sees them.
pub open spec fn opt_attrs(o: Option<Operation>) -> Option<AttrsModel> {
    match o {
        None => None,
        Some(op) => Some(crate::model::attr_of(op@)),
    }
}

/// Both operations' attribute maps, if any, have unique keys.
pub open spec fn opt_op_wf(o: Option<Operation>) -> bool {
    match o {
        None => true,
        Some(op) => crate::operation::op_wf(op),
    }
}

/// The attributes an optional operation carries.
pub(crate) fn attributes_from(operation: &Option<Operation>) -> (r: Option<Attributes>)
    requires
        opt_op_wf(*operation),
    ensures
        match r {
            None => opt_attrs(*operation) is None,
            Some(a) => opt_attrs(*operation) == Some(a@) && a.wf(),
        },
{
    match operation {
        None => None,
        Some(operation) => Some(operation.get_attributes()),
    }
}

/// Overlay `other` on `attributes`; entries of `other` win per key.
pub fn merge_attributes(attributes: Attributes, other: Option<Attributes>) -> (r: Attributes)
    requires
        attributes.wf(),
        other is Some ==> other->Some_0.wf(),
    ensures
        r.wf(),
        r@ == merge_model(
            attributes@,
            match other {
                None => None,
                Some(o) => Some(o@),
            },
        ),
{
    let other = match other {
        None => Attributes::Empty,
        Some(o) => o,
    };
    match (&attributes, &other) {
        (Attributes::Custom(data), Attributes::Custom(o_data)) => {
            let mut data = data.duplicate();
            data.extend(o_data.duplicate());
            Attributes::Custom(data)
        },
        (Attributes::Custom(data), _) => Attributes::Custom(data.duplicate()),
        _ => other,
    }
}

/// Attribute composition of two sequential operations; the result is
/// normalized.
pub fn compose_attributes(left: &Option<Operation>, right: &Option<Operation>) -> (r: Attributes)
    requires
        opt_op_wf(*left),
        opt_op_wf(*right),
    ensures
        r.wf(),
        r@ == compose_attr_model(opt_attrs(*left), opt_attrs(*right)),
{
    if left.is_none() && right.is_none() {
        return Attributes::Empty;
    }
    let attr_l = attributes_from(left);
    let attr_r = attributes_from(right);

    let attr = if matches!(&attr_r, Some(Attributes::Custom(_))) {
        match attr_l {
            None => attr_r.unwrap(),
            Some(al) => merge_attributes(al, attr_r),
        }
    } else if matches!(&attr_l, Some(Attributes::Custom(_)))
        && matches!(&attr_r, Some(Attributes::Follow)) {
        merge_attributes(attr_l.unwrap(), attr_r)
    } else if matches!(&attr_l, Some(Attributes::Follow))
        && matches!(&attr_r, Some(Attributes::Follow)) {
        Attributes::Follow
    } else {
        Attributes::Empty
    };
    attr.apply_rule()
}

/// Attribute composition of two present attribute sets; the result is
/// normalized.
pub fn compose_attr_pair(l: &Attributes, r: &Attributes) -> (res: Attributes)
    requires
        l.wf(),
        r.wf(),
    ensures
        res.wf(),
        res@ == compose_attr_model(Some(l@), Some(r@)),
{
    let attr = if matches!(r, Attributes::Custom(_)) {
        merge_attributes(l.duplicate(), Some(r.duplicate()))
    } else if matches!(l, Attributes::Custom(_)) && matches!(r, Attributes::Follow) {
        merge_attributes(l.duplicate(), Some(r.duplicate()))
    } else if matches!(l, Attributes::Follow) && matches!(r, Attributes::Follow) {
        Attributes::Follow
    } else {
        Attributes::Empty
    };
    attr.apply_rule()
}

/// The subset of `right` whose keys are absent from `left`.
fn transform_attribute_data(left: &AttributesData, right: &AttributesData) -> (r: AttributesData)
    requires
        left.wf(),
        right.wf(),
    ensures
        r.wf(),
        r@ == transform_data_model(left@, right@),
{
    let n = right.entries.len();
    let mut out = AttributesData::new();
    let mut i: usize = 0;
    while i < n
        invariant
            left.wf(),
            right.wf(),
            out.wf(),
            n == right.entries@.len(),
            i <= n,
            out@ =~= transform_data_model(left@, entries_map(right.entries@.take(i as int))),
        decreases n - i,
    {
        proof {
            lemma_entries_map_take_step(right.entries@, i as int);
        }
        if !left.contains_key(&right.entries[i].key) {
            let e = AttrEntry {
                key: right.entries[i].key.clone(),
                value: right.entries[i].value.clone(),
            };
            out.insert(e.key, e.value);
        }
        proof {
            let post = right.entries@.take(i as int + 1);
            assert(out@ =~= transform_data_model(left@, entries_map(post)));
        }
        i = i + 1;
    }
    proof {
        assert(right.entries@.take(n as int) =~= right.entries@);
    }
    out
}

/// Attribute transformation of two concurrent operation slots.
pub fn transform_op_attributes(
    left: &Option<Operation>,
    right: &Option<Operation>,
    priority: bool,
) -> (r: Attributes)
    requires
        opt_op_wf(*left),
        opt_op_wf(*right),
        opt_attrs(*left) is Some ==> opt_attrs(*right) is Some,
    ensures
        r.wf(),
        r@ == transform_attr_model(opt_attrs(*left), opt_attrs(*right), priority),
{
    let attr_l = attributes_from(left);
    let attr_r = attributes_from(right);
    transform_attributes(attr_l, attr_r, priority)
}

/// Attribute transformation: with priority, the left side's claim removes
/// conflicting entries on the right; without it, the right side wins.
pub fn transform_attributes(
    left: Option<Attributes>,
    right: Option<Attributes>,
    priority: bool,
) -> (r: Attributes)
    requires
        left is Some ==> left->Some_0.wf(),
        right is Some ==> right->Some_0.wf(),
        left is Some ==> right is Some,
    ensures
        r.wf(),
        r@ == transform_attr_model(
            match left {
                None => None,
                Some(l) => Some(l@),
            },
            match right {
                None => None,
                Some(x) => Some(x@),
            },
            priority,
        ),
{
    if left.is_none() {
        if right.is_none() {
            return Attributes::Empty;
        }
        return match right.unwrap() {
            Attributes::Follow => Attributes::Follow,
            Attributes::Custom(d) => Attributes::Custom(d),
            Attributes::Empty => Attributes::Empty,
        };
    }
    if !priority {
        return right.unwrap();
    }
    match (left.unwrap(), right.unwrap()) {
        (Attributes::Custom(attr_data_l), Attributes::Custom(attr_data_r)) => {
            let result = transform_attribute_data(&attr_data_l, &attr_data_r);
            Attributes::Custom(result)
        },
        _ => Attributes::Empty,
    }
}

/// The attributes that restore `attr` when re-applied on top of `base`: the
/// entries of `base` whose values `attr` overrode.
pub fn invert_attributes(attr: Attributes, base: Attributes) -> (r: Attributes)
    requires
        attr.wf(),
        base.wf(),
    ensures
        r.wf(),
        r@ == invert_attr_model(attr@, base@),
{
    let attr_d = attr.data();
    let base_d = base.data();

    if attr_d.is_none() && base_d.is_none() {
        return Attributes::Empty;
    }

    let attr_d = match attr_d {
        None => AttributesData::new(),
        Some(d) => d,
    };
    let base_d = match base_d {
        None => AttributesData::new(),
        Some(d) => d,
    };

    let n = base_d.entries.len();
    let mut out = AttributesData::new();
    let mut i: usize = 0;
    while i < n
        invariant
            attr_d.wf(),
            base_d.wf(),
            out.wf(),
            n == base_d.entries@.len(),
            i <= n,
            out@ =~= Map::new(
                |k: Seq<char>| entries_map(base_d.entries@.take(i as int)).contains_key(k)
                    && attr_d@.contains_key(k)
                    && entries_map(base_d.entries@.take(i as int))[k] != attr_d@[k],
                |k: Seq<char>| entries_map(base_d.entries@.take(i as int))[k],
            ),
        decreases n - i,
    {
        proof {
            lemma_entries_map_take_step(base_d.entries@, i as int);
            let pre = base_d.entries@.take(i as int);
            if entries_map(pre).contains_key(base_d.entries@[i as int].key@) {
                lemma_entries_map_domain(pre, base_d.entries@[i as int].key@);
                assert(false);
            }
        }
        let insert_it = match attr_d.get(&base_d.entries[i].key) {
            None => false,
            Some(av) => !(av == base_d.entries[i].value),
        };
        if insert_it {
            let e = AttrEntry {
                key: base_d.entries[i].key.clone(),
                value: base_d.entries[i].value.clone(),
            };
            out.insert(e.key, e.value);
        }
        proof {
            let post = base_d.entries@.take(i as int + 1);
            assert(out@ =~= Map::new(
                |k: Seq<char>| entries_map(post).contains_key(k) && attr_d@.contains_key(k)
                    && entries_map(post)[k] != attr_d@[k],
                |k: Seq<char>| entries_map(post)[k],
            ));
        }
        i = i + 1;
    }
    proof {
        assert(base_d.entries@.take(n as int) =~= base_d.entries@);
        assert(invert_attr_model(attr@, base@) is Custom);
        assert(out@ =~= invert_attr_model(attr@, base@)->Custom_0);
    }
    Attributes::Custom(out)
}

/// Two entry runs whose keys and values agree pairwise denote the same map.
pub proof fn lemma_entries_map_congruent(a: Seq<AttrEntry>, b: Seq<AttrEntry>)
    requires
        a.len() == b.len(),
        forall|j: int|
            0 <= j < a.len() ==> (#[trigger] a[j]).key@ == b[j].key@ && a[j].value@ == b[j].value@,
    ensures
        entries_map(a) == entries_map(b),
    decreases a.len(),
{
    if a.len() > 0 {
        lemma_entries_map_congruent(a.drop_last(), b.drop_last());
    }
}

} // verus!
