use vstd::prelude::*;

verus! {

/// An environment picked by group and name.
pub struct EnvSelection {
    pub group: String,
    pub env: String,
}

impl View for EnvSelection {
    type V = (Seq<char>, Seq<char>);

    open spec fn view(&self) -> (Seq<char>, Seq<char>) {
        (self.group@, self.env@)
    }
}

impl EnvSelection {
    pub fn duplicate(&self) -> (r: Self)
        ensures
            r@ == self@,
    {
        EnvSelection { group: self.group.clone(), env: self.env.clone() }
    }
}

/// How many recently applied environments are kept.
pub open spec fn recent_limit() -> nat {
    2
}

/// The most recently applied environments, newest first.
pub struct AppRuntimeState {
    recent: Vec<EnvSelection>,
}

/// Any selection other than `sel`.
pub open spec fn other_than(sel: (Seq<char>, Seq<char>)) -> spec_fn((Seq<char>, Seq<char>)) -> bool {
    |x: (Seq<char>, Seq<char>)| x != sel
}

/// `sel` moved to the front, without duplicates, cut to the limit.
pub open spec fn spec_remember(s: Seq<(Seq<char>, Seq<char>)>, sel: (Seq<char>, Seq<char>)) -> Seq<
    (Seq<char>, Seq<char>),
> {
    let all = seq![sel] + s.filter(other_than(sel));
    if all.len() > recent_limit() {
        all.take(recent_limit() as int)
    } else {
        all
    }
}

impl View for AppRuntimeState {
    type V = Seq<(Seq<char>, Seq<char>)>;

    closed spec fn view(&self) -> Seq<(Seq<char>, Seq<char>)> {
        self.recent@.map_values(|e: EnvSelection| e@)
    }
}

impl AppRuntimeState {
    /// At most the limit.
    pub open spec fn wf(self) -> bool {
        self@.len() <= recent_limit()
    }

    pub fn new() -> (r: Self)
        ensures
            r.wf(),
            r@ == Seq::<(Seq<char>, Seq<char>)>::empty(),
    {
        let r = AppRuntimeState { recent: Vec::new() };
        proof {
            assert(r@ =~= Seq::<(Seq<char>, Seq<char>)>::empty());
        }
        r
    }

    /// Moves the selected environment to the front of the list.
    pub fn remember(&mut self, group: &String, env: &String)
        requires
            old(self).wf(),
        ensures
            final(self).wf(),
            final(self)@ == spec_remember(old(self)@, (group@, env@)),
            final(self)@.no_duplicates(),
    {
        let ghost s = self@;
        let ghost sel = (group@, env@);
        let mut next: Vec<EnvSelection> = Vec::new();
        next.push(EnvSelection { group: group.clone(), env: env.clone() });
        let n = self.recent.len();
        let mut i: usize = 0;
        proof {
            reveal(Seq::filter);
            assert(s.take(0) =~= Seq::<(Seq<char>, Seq<char>)>::empty());
            assert(next@.map_values(|e: EnvSelection| e@) =~= seq![sel] + s.take(0).filter(other_than(sel)));
        }
        while i < n
            invariant
                n == self.recent@.len(),
                s == self@,
                sel == (group@, env@),
                s.len() <= 2,
                i <= n,
                next@.map_values(|e: EnvSelection| e@) == seq![sel] + s.take(i as int).filter(other_than(sel)),
            decreases n - i,
        {
            let item = &self.recent[i];
            let keep = !(item.group == *group && item.env == *env);
            proof {
                reveal(Seq::filter);
                assert(s[i as int] == item@);
                assert(s.take(i + 1).drop_last() =~= s.take(i as int));
                assert(s.take(i + 1).last() == s[i as int]);
            }
            let ghost before = next@;
            if keep {
                next.push(item.duplicate());
                proof {
                    assert(next@.map_values(|e: EnvSelection| e@) =~= before.map_values(|e: EnvSelection| e@).push(item@));
                }
            }
            proof {
                assert(keep == (item@ != sel));
                assert(next@.map_values(|e: EnvSelection| e@) =~= seq![sel] + s.take(i + 1).filter(other_than(sel)));
            }
            i = i + 1;
        }
        proof {
            assert(s.take(n as int) =~= s);
        }
        let ghost full = next@;
        if next.len() > 2 {
            next.truncate(2);
            proof {
                assert(next@.map_values(|e: EnvSelection| e@) =~= full.map_values(|e: EnvSelection| e@).take(2));
            }
        }
        self.recent = next;
        proof {
            assert(full.map_values(|e: EnvSelection| e@).len() == full.len());
            assert(self@ =~= spec_remember(s, sel));
            law_remember_puts_first(s, sel);
        }
    }

    /// The environment at position `index` (0 is the newest), if any.
    pub fn recent_at(&self, index: usize) -> (r: Option<EnvSelection>)
        ensures
            index < self@.len() ==> (r matches Some(e) && e@ == self@[index as int]),
            index >= self@.len() ==> r is None,
    {
        if index < self.recent.len() {
            Some(self.recent[index].duplicate())
        } else {
            None
        }
    }

    /// The list shown in the tray menu.
    pub fn recent_snapshot(&self) -> (r: Vec<EnvSelection>)
        requires
            self.wf(),
        ensures
            r@.map_values(|e: EnvSelection| e@) == self@,
    {
        let mut r: Vec<EnvSelection> = Vec::new();
        let mut i: usize = 0;
        while i < self.recent.len()
            invariant
                i <= self.recent@.len(),
                r@.len() == i,
                forall|j: int| 0 <= j < i ==> #[trigger] r@[j]@ == self.recent@[j]@,
            decreases self.recent@.len() - i,
        {
            r.push(self.recent[i].duplicate());
            i = i + 1;
        }
        proof {
            assert(r@.map_values(|e: EnvSelection| e@) =~= self@);
        }
        r
    }

    /// Replaces the list by the first entries of a stored one.
    pub fn load_recent(&mut self, list: Vec<EnvSelection>)
        ensures
            final(self).wf(),
            final(self)@ == (if list@.len() > recent_limit() {
                list@.map_values(|e: EnvSelection| e@).take(recent_limit() as int)
            } else {
                list@.map_values(|e: EnvSelection| e@)
            }),
    {
        let ghost full = list@.map_values(|e: EnvSelection| e@);
        let mut list = list;
        if list.len() > 2 {
            list.truncate(2);
            proof {
                assert(list@.map_values(|e: EnvSelection| e@) =~= full.take(2));
            }
        }
        let ghost l = list@;
        self.recent = list;
        proof {
            assert(self@ =~= l.map_values(|e: EnvSelection| e@));
        }
    }
}

/// The environment just remembered is the most recent one, and the list stays
/// short and has no environment twice, whatever it held before.
pub proof fn law_remember_puts_first(s: Seq<(Seq<char>, Seq<char>)>, sel: (Seq<char>, Seq<char>))
    ensures
        spec_remember(s, sel).len() <= recent_limit(),
        spec_remember(s, sel).no_duplicates(),
        spec_remember(s, sel).len() >= 1,
        spec_remember(s, sel)[0] == sel,
{
    let f = s.filter(other_than(sel));
    let r = spec_remember(s, sel);
    if f.len() > 0 {
        s.lemma_filter_pred(other_than(sel), 0);
        assert(r[1] == f[0]);
    }
    assert forall|i: int, j: int| 0 <= i < r.len() && 0 <= j < r.len() && i != j implies r[i] != r[j] by {
        assert(r[0] == sel);
        if i == 1 || j == 1 {
            assert(r[1] == f[0]);
        }
    }
}

/// Records the latest environment selection for quick reuse.
pub fn remember_recent_env(state: &mut AppRuntimeState, group: &String, env: &String)
    requires
        old(state).wf(),
    ensures
        final(state).wf(),
        final(state)@ == spec_remember(old(state)@, (group@, env@)),
{
    state.remember(group, env);
}

/// The most recent environment selection, if there is one.
pub fn current_recent_env(state: &AppRuntimeState) -> (r: Option<EnvSelection>)
    ensures
        state@.len() > 0 ==> (r matches Some(e) && e@ == state@[0]),
        state@.len() == 0 ==> r is None,
{
    state.recent_at(0)
}

/// The list after remembering each selection of `sels` in turn, from an empty list.
pub open spec fn remember_all(sels: Seq<(Seq<char>, Seq<char>)>) -> Seq<(Seq<char>, Seq<char>)>
    decreases sels.len(),
{
    if sels.len() == 0 {
        Seq::empty()
    } else {
        spec_remember(remember_all(sels.drop_last()), sels.last())
    }
}

/// The latest selection of `sels` that differs from `x`.
pub open spec fn latest_other(sels: Seq<(Seq<char>, Seq<char>)>, x: (Seq<char>, Seq<char>)) -> Option<(Seq<char>, Seq<char>)>
    decreases sels.len(),
{
    if sels.len() == 0 {
        None
    } else if sels.last() != x {
        Some(sels.last())
    } else {
        latest_other(sels.drop_last(), x)
    }
}

proof fn lemma_remember_one(a: (Seq<char>, Seq<char>), x: (Seq<char>, Seq<char>))
    ensures
        spec_remember(seq![a], x) == (if a != x { seq![x, a] } else { seq![x] }),
        spec_remember(Seq::empty(), x) == seq![x],
{
    reveal_with_fuel(Seq::filter, 2);
    let f = other_than(x);
    assert(seq![a].drop_last() =~= Seq::<(Seq<char>, Seq<char>)>::empty());
    assert(Seq::<(Seq<char>, Seq<char>)>::empty().filter(f) =~= Seq::<(Seq<char>, Seq<char>)>::empty());
    if a != x {
        assert(seq![a].filter(f) =~= seq![a]);
        assert(spec_remember(seq![a], x) =~= seq![x, a]);
    } else {
        assert(seq![a].filter(f) =~= Seq::<(Seq<char>, Seq<char>)>::empty());
        assert(spec_remember(seq![a], x) =~= seq![x]);
    }
    assert(spec_remember(Seq::empty(), x) =~= seq![x]);
}

proof fn lemma_remember_two(a: (Seq<char>, Seq<char>), b: (Seq<char>, Seq<char>), x: (Seq<char>, Seq<char>))
    requires
        a != b,
    ensures
        spec_remember(seq![a, b], x) == (if a != x { seq![x, a] } else { seq![x, b] }),
{
    reveal_with_fuel(Seq::filter, 3);
    let f = other_than(x);
    let s = seq![a, b];
    assert(s.drop_last() =~= seq![a]);
    assert(seq![a].drop_last() =~= Seq::<(Seq<char>, Seq<char>)>::empty());
    assert(Seq::<(Seq<char>, Seq<char>)>::empty().filter(f) =~= Seq::<(Seq<char>, Seq<char>)>::empty());
    if a != x {
        assert(seq![a].filter(f) =~= seq![a]);
        if b != x {
            assert(s.filter(f) =~= seq![a, b]);
        } else {
            assert(s.filter(f) =~= seq![a]);
        }
        assert(spec_remember(s, x) =~= seq![x, a]);
    } else {
        assert(seq![a].filter(f) =~= Seq::<(Seq<char>, Seq<char>)>::empty());
        assert(s.filter(f) =~= seq![b]);
        assert(spec_remember(s, x) =~= seq![x, b]);
    }
}

/// The list after any sequence of selections: the last selection first, then
/// the latest earlier selection that differs from it, if there is one.
pub proof fn law_recent_after_selections(sels: Seq<(Seq<char>, Seq<char>)>)
    ensures
        remember_all(sels) == (if sels.len() == 0 {
            Seq::empty()
        } else {
            match latest_other(sels, sels.last()) {
                Some(b) => seq![sels.last(), b],
                None => seq![sels.last()],
            }
        }),
    decreases sels.len(),
{
    if sels.len() > 0 {
        let x = sels.last();
        let p = sels.drop_last();
        assert(latest_other(sels, x) == latest_other(p, x));
        assert(remember_all(sels) == spec_remember(remember_all(p), x));
        if p.len() == 0 {
            lemma_remember_one(x, x);
            assert(remember_all(p) == Seq::<(Seq<char>, Seq<char>)>::empty());
            assert(latest_other(p, x) is None);
        } else {
            law_recent_after_selections(p);
            let a = p.last();
            assert(latest_other(p, a) == latest_other(p.drop_last(), a));
            if a == x {
                assert(latest_other(p, x) == latest_other(p.drop_last(), x));
            } else {
                assert(latest_other(p, x) == Some(a));
            }
            match latest_other(p, a) {
                Some(b) => {
                    lemma_latest_other_differs(p, a);
                    lemma_remember_two(a, b, x);
                    assert(remember_all(p) == seq![a, b]);
                },
                None => {
                    lemma_remember_one(a, x);
                    assert(remember_all(p) == seq![a]);
                },
            }
        }
    }
}

proof fn lemma_latest_other_differs(sels: Seq<(Seq<char>, Seq<char>)>, x: (Seq<char>, Seq<char>))
    ensures
        latest_other(sels, x) matches Some(b) ==> b != x,
    decreases sels.len(),
{
    if sels.len() > 0 && sels.last() == x {
        lemma_latest_other_differs(sels.drop_last(), x);
    }
}

} // verus!
