use vstd::prelude::*;
use crate::strmap::StrMap;

verus! {

/// A value that can be stored in a `StrMap` of the configuration: it has a
/// well-formedness condition and can be copied without changing its view.
pub trait Item: DeepView + Sized {
    spec fn inv(&self) -> bool;

    fn duplicate(&self) -> (r: Self)
        requires
            self.inv(),
        ensures
            r.deep_view() == self.deep_view(),
            r.inv(),
    ;
}

impl Item for String {
    open spec fn inv(&self) -> bool {
        true
    }

    fn duplicate(&self) -> (r: Self) {
        self.clone()
    }
}

impl<V: Item> StrMap<V> {
    /// No key occurs twice, and every value is well formed.
    pub open spec fn deep_wf(self) -> bool {
        &&& self.wf()
        &&& forall|i: int| 0 <= i < self.len() ==> (#[trigger] self.entry_seq()[i]).1.inv()
    }

    /// Inserts or replaces a well-formed value.
    pub fn put(&mut self, k: String, v: V)
        requires
            old(self).deep_wf(),
            v.inv(),
        ensures
            final(self).deep_wf(),
            final(self)@ == old(self)@.insert(k@, v.deep_view()),
            final(self).pairs() == (if old(self)@.contains_key(k@) {
                old(self).pairs().update(old(self).index_of(k@), (k@, v.deep_view()))
            } else {
                old(self).pairs().push((k@, v.deep_view()))
            }),
            final(self).entry_seq() == (if old(self)@.contains_key(k@) {
                old(self).entry_seq().update(old(self).index_of(k@), (k, v))
            } else {
                old(self).entry_seq().push((k, v))
            }),
    {
        let ghost before = *self;
        self.insert(k, v);
        proof {
            assert forall|i: int| 0 <= i < self.len() implies (#[trigger] self.entry_seq()[i]).1.inv() by {
                if before.map().contains_key(k@) {
                    if i != before.index_of(k@) {
                        assert(self.entry_seq()[i] == before.entry_seq()[i]);
                    }
                } else if i < before.len() {
                    assert(self.entry_seq()[i] == before.entry_seq()[i]);
                }
            }
        }
    }

    /// Removes `k` and hands back its value, if present.
    pub fn take(&mut self, k: &String) -> (r: Option<V>)
        requires
            old(self).deep_wf(),
        ensures
            final(self).deep_wf(),
            final(self)@ == old(self)@.remove(k@),
            r is Some == old(self)@.contains_key(k@),
            r matches Some(v) ==> v.deep_view() == old(self)@[k@] && v.inv(),
            r is Some ==> final(self).pairs() == old(self).pairs().remove(old(self).index_of(k@)),
            r is None ==> *final(self) == *old(self),
    {
        let ghost before = *self;
        let r = self.remove(k);
        proof {
            if r is Some {
                let idx = before.index_of(k@);
                before.lemma_map_has(k@);
                assert(before.entry_seq()[idx].1.inv());
                assert forall|i: int| 0 <= i < self.len() implies (#[trigger] self.entry_seq()[i]).1.inv() by {
                    if i < idx {
                        assert(self.entry_seq()[i] == before.entry_seq()[i]);
                    } else {
                        assert(self.entry_seq()[i] == before.entry_seq()[i + 1]);
                    }
                }
            }
        }
        r
    }

    /// Replacing the value of entry `i` by a well-formed value keeps the map well formed.
    pub proof fn lemma_deep_update(old_m: Self, new_m: Self, i: int, v: V)
        requires
            old_m.deep_wf(),
            v.inv(),
            0 <= i < old_m.len(),
            new_m.entry_seq() == old_m.entry_seq().update(i, (old_m.entry_seq()[i].0, v)),
        ensures
            new_m.deep_wf(),
            new_m@ == old_m@.insert(old_m.key_at(i), v.deep_view()),
            new_m.pairs() == old_m.pairs().update(i, (old_m.key_at(i), v.deep_view())),
    {
        StrMap::lemma_update_at(old_m, new_m, i, v);
        assert forall|j: int| 0 <= j < new_m.len() implies (#[trigger] new_m.entry_seq()[j]).1.inv() by {
            if j != i {
                assert(new_m.entry_seq()[j] == old_m.entry_seq()[j]);
            }
        }
    }

    /// Every value of a well-formed map is well formed.
    pub proof fn lemma_value_inv(self, k: Seq<char>)
        requires
            self.deep_wf(),
            self@.contains_key(k),
        ensures
            self.entry_seq()[self.index_of(k)].1.inv(),
            self.entry_seq()[self.index_of(k)].1.deep_view() == self@[k],
    {
        self.lemma_map_has(k);
    }

    /// Adds every entry of `other`; an entry of `other` wins over one of `self` with the same key.
    pub fn absorb(&mut self, other: StrMap<V>)
        requires
            old(self).deep_wf(),
            other.deep_wf(),
        ensures
            final(self).deep_wf(),
            final(self)@ == old(self)@.union_prefer_right(other@),
    {
        let ghost o = other;
        let ghost s0 = self@;
        let mut rest = other.into_entries();
        proof {
            assert(o.entry_seq().take(rest@.len() as int) =~= rest@);
            if o.len() > 0 {
                StrMap::<V>::lemma_map_of_prefix_step(o, 0);
            } else {
                assert(StrMap::<V>::map_of_prefix(o, 0) =~= o@);
            }
        }
        while rest.len() > 0
            invariant
                self.deep_wf(),
                o.deep_wf(),
                rest@.len() <= o.len(),
                rest@ == o.entry_seq().take(rest@.len() as int),
                s0.union_prefer_right(o@) == self@.union_prefer_right(StrMap::<V>::map_of_prefix(o, rest@.len() as int)),
            decreases rest@.len(),
        {
            let ghost n = rest@.len() as int;
            let (k, v) = rest.pop().unwrap();
            proof {
                assert(o.entry_seq()[n - 1].1.inv());
                assert(rest@ =~= o.entry_seq().take(n - 1));
                StrMap::<V>::lemma_map_of_prefix_step(o, n - 1);
            }
            let ghost before = self@;
            self.put(k, v);
            proof {
                let kv = o.key_at(n - 1);
                let vv = o.value_at(n - 1);
                let p1 = StrMap::<V>::map_of_prefix(o, n - 1);
                assert(!p1.contains_key(kv));
                assert(before.union_prefer_right(p1.insert(kv, vv)) =~= before.insert(kv, vv).union_prefer_right(p1));
            }
        }
        proof {
            assert(StrMap::<V>::map_of_prefix(o, 0) =~= Map::<Seq<char>, V::V>::empty());
            assert(self@.union_prefer_right(Map::<Seq<char>, V::V>::empty()) =~= self@);
        }
    }

    pub fn duplicate_map(&self) -> (r: Self)
        requires
            self.deep_wf(),
        ensures
            r.pairs() == self.pairs(),
            r@ == self@,
            r.len() == self.len(),
            r.deep_wf(),
    {
        let mut r: StrMap<V> = StrMap::new();
        let n = self.size();
        let mut i: usize = 0;
        while i < n
            invariant
                n == self.len(),
                i <= n,
                r.len() == i,
                r.wf(),
                self.deep_wf(),
                r.pairs() == self.pairs().subrange(0, i as int),
                r.deep_wf(),
            decreases n - i,
        {
            let (k, v) = self.entry(i);
            let ghost before = r;
            proof {
                assert forall|a: int| 0 <= a < i implies before.key_at(a) != k@ by {
                    assert(before.pairs()[a] == self.pairs()[a]);
                    assert(self.key_at(a) != self.key_at(i as int));
                }
                if before.has_key(k@) {
                    let a = before.index_of(k@);
                    assert(before.key_at(a) == k@);
                }
            }
            let kc = k.clone();
            proof {
                assert(self.entry_seq()[i as int].1.inv());
            }
            let vc = v.duplicate();
            r.insert(kc, vc);
            proof {
                assert(r.pairs() =~= self.pairs().subrange(0, i + 1));
                assert forall|a: int| 0 <= a < r.len() implies (#[trigger] r.entry_seq()[a]).1.inv() by {
                    if a < i {
                        assert(r.entry_seq()[a] == before.entry_seq()[a]);
                    }
                }
            }
            i = i + 1;
        }
        proof {
            assert(self.pairs().subrange(0, n as int) =~= self.pairs());
            assert forall|k: Seq<char>| #[trigger] r.map().contains_key(k) <==> self.map().contains_key(k) by {
                if r.has_key(k) {
                    let a = r.index_of(k);
                    assert(r.pairs()[a] == self.pairs()[a]);
                    assert(self.key_at(a) == k);
                }
                if self.has_key(k) {
                    let a = self.index_of(k);
                    assert(r.pairs()[a] == self.pairs()[a]);
                    assert(r.key_at(a) == k);
                }
            }
            assert forall|k: Seq<char>| #[trigger] r.map().contains_key(k) implies r.map()[k] == self.map()[k] by {
                let a = r.index_of(k);
                r.lemma_map_at(a);
                assert(r.pairs()[a] == self.pairs()[a]);
                self.lemma_map_at(a);
            }
            assert(r.map() =~= self.map());
        }
        r
    }
}

/// Commands run after an environment has been applied.
pub struct HooksDef {
    pub post: Option<Vec<String>>,
}

impl DeepView for HooksDef {
    type V = Option<Seq<Seq<char>>>;

    open spec fn deep_view(&self) -> Option<Seq<Seq<char>>> {
        self.post.deep_view()
    }
}

impl HooksDef {
    pub fn duplicate(&self) -> (r: Self)
        ensures
            r.deep_view() == self.deep_view(),
    {
        match &self.post {
            None => HooksDef { post: None },
            Some(list) => {
                let mut out: Vec<String> = Vec::new();
                let mut i: usize = 0;
                while i < list.len()
                    invariant
                        i <= list.len(),
                        out@.len() == i,
                        forall|j: int| 0 <= j < i ==> #[trigger] out@[j]@ == list@[j]@,
                    decreases list.len() - i,
                {
                    out.push(list[i].clone());
                    i = i + 1;
                }
                proof {
                    assert(out.deep_view() =~= list.deep_view());
                }
                HooksDef { post: Some(out) }
            },
        }
    }
}

/// The view of an environment.
#[verifier::ext_equal]
pub struct EnvView {
    pub description: Option<Seq<char>>,
    pub variables: Map<Seq<char>, Seq<char>>,
    pub hooks: Option<Option<Seq<Seq<char>>>>,
}

/// One environment: a set of variables, with an optional description and hooks.
pub struct EnvDef {
    pub description: Option<String>,
    pub variables: StrMap<String>,
    pub hooks: Option<HooksDef>,
}

impl DeepView for EnvDef {
    type V = EnvView;

    open spec fn deep_view(&self) -> EnvView {
        EnvView {
            description: self.description.deep_view(),
            variables: self.variables@,
            hooks: match self.hooks {
                Some(h) => Some(h.deep_view()),
                None => None,
            },
        }
    }
}

impl View for EnvDef {
    type V = EnvView;

    open spec fn view(&self) -> EnvView {
        self.deep_view()
    }
}

pub fn duplicate_opt_string(s: &Option<String>) -> (r: Option<String>)
    ensures
        r.deep_view() == s.deep_view(),
{
    match s {
        Some(x) => Some(x.clone()),
        None => None,
    }
}

impl Item for EnvDef {
    open spec fn inv(&self) -> bool {
        self.variables.wf()
    }

    fn duplicate(&self) -> (r: Self) {
        let hooks = match &self.hooks {
            Some(h) => Some(h.duplicate()),
            None => None,
        };
        EnvDef {
            description: duplicate_opt_string(&self.description),
            variables: self.variables.duplicate_map(),
            hooks,
        }
    }
}

/// The view of a group.
#[verifier::ext_equal]
pub struct GroupView {
    pub description: Option<Seq<char>>,
    pub environments: Map<Seq<char>, EnvView>,
}

/// A named set of environments.
pub struct GroupDef {
    pub description: Option<String>,
    pub environments: StrMap<EnvDef>,
}

impl DeepView for GroupDef {
    type V = GroupView;

    open spec fn deep_view(&self) -> GroupView {
        GroupView { description: self.description.deep_view(), environments: self.environments@ }
    }
}

impl View for GroupDef {
    type V = GroupView;

    open spec fn view(&self) -> GroupView {
        self.deep_view()
    }
}

impl Item for GroupDef {
    open spec fn inv(&self) -> bool {
        self.environments.deep_wf()
    }

    fn duplicate(&self) -> (r: Self)
        ensures
            r.environments.pairs() == self.environments.pairs(),
    {
        GroupDef {
            description: duplicate_opt_string(&self.description),
            environments: self.environments.duplicate_map(),
        }
    }
}

/// The view of a whole configuration.
#[verifier::ext_equal]
pub struct ConfigView {
    pub groups: Map<Seq<char>, GroupView>,
    pub environments: Map<Seq<char>, EnvView>,
}

/// A whole configuration. `environments` holds ungrouped environments of the
/// older layout; `normalize_config` moves them into the group "default".
pub struct ConfigFile {
    pub groups: StrMap<GroupDef>,
    pub environments: StrMap<EnvDef>,
}

impl View for ConfigFile {
    type V = ConfigView;

    open spec fn view(&self) -> ConfigView {
        ConfigView { groups: self.groups@, environments: self.environments@ }
    }
}

impl ConfigFile {
    /// Keys are unique at every level.
    pub open spec fn wf(self) -> bool {
        self.groups.deep_wf() && self.environments.deep_wf()
    }

    pub fn new() -> (r: Self)
        ensures
            r.wf(),
            r@.groups == Map::<Seq<char>, GroupView>::empty(),
            r@.environments == Map::<Seq<char>, EnvView>::empty(),
    {
        ConfigFile { groups: StrMap::new(), environments: StrMap::new() }
    }

    pub fn duplicate(&self) -> (r: Self)
        requires
            self.wf(),
        ensures
            r@ == self@,
            r.groups.pairs() == self.groups.pairs(),
            r.wf(),
    {
        ConfigFile {
            groups: self.groups.duplicate_map(),
            environments: self.environments.duplicate_map(),
        }
    }
}

} // verus!
