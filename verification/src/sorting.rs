use vstd::prelude::*;
use crate::text::{
    lemma_str_less_total, lemma_str_less_transitive, str_less,
    string_less,
};

verus! {

/// Something listed in name order.
pub trait Named: Sized {
    spec fn name_view(&self) -> Seq<char>;

    fn name(&self) -> (r: &String)
        ensures
            r@ == self.name_view(),
    ;
}

impl Named for String {
    open spec fn name_view(&self) -> Seq<char> {
        self@
    }

    fn name(&self) -> (r: &String) {
        self
    }
}

impl<V> Named for (String, V) {
    open spec fn name_view(&self) -> Seq<char> {
        self.0@
    }

    fn name(&self) -> (r: &String) {
        &self.0
    }
}

/// Strictly increasing by name, so no name occurs twice.
pub open spec fn sorted_by_name<T: Named>(s: Seq<T>) -> bool {
    forall|i: int, j: int| 0 <= i < j < s.len() ==> str_less(#[trigger] s[i].name_view(), #[trigger] s[j].name_view())
}

/// Inserts `x` at the place that keeps `v` sorted.
pub fn insert_sorted<T: Named>(v: &mut Vec<T>, x: T)
    requires
        sorted_by_name(old(v)@),
        forall|i: int| 0 <= i < old(v)@.len() ==> #[trigger] old(v)@[i].name_view() != x.name_view(),
    ensures
        sorted_by_name(final(v)@),
        exists|p: int| 0 <= p <= old(v)@.len() && final(v)@ == old(v)@.insert(p, x),
{
    let n = v.len();
    let mut p: usize = 0;
    while p < n && string_less(v[p].name(), x.name())
        invariant
            n == v@.len(),
            p <= n,
            forall|i: int| 0 <= i < p ==> str_less(#[trigger] v@[i].name_view(), x.name_view()),
        decreases n - p,
    {
        p = p + 1;
    }
    let ghost old_v = v@;
    proof {
        if p < n {
            lemma_str_less_total(old_v[p as int].name_view(), x.name_view());
            assert(str_less(x.name_view(), old_v[p as int].name_view()));
        }
    }
    v.insert(p, x);
    proof {
        let nv = v@;
        assert(nv == old_v.insert(p as int, x));
        assert forall|i: int, j: int| 0 <= i < j < nv.len() implies str_less(#[trigger] nv[i].name_view(), #[trigger] nv[j].name_view()) by {
            if i < p && j < p {
                assert(nv[i] == old_v[i] && nv[j] == old_v[j]);
            } else if i < p && j == p {
                assert(nv[i] == old_v[i]);
            } else if i < p && j > p {
                assert(nv[i] == old_v[i] && nv[j] == old_v[j - 1]);
                if (p as int) < n {
                    if j - 1 > p {
                        assert(str_less(old_v[p as int].name_view(), old_v[j - 1].name_view()));
                        lemma_str_less_transitive(x.name_view(), old_v[p as int].name_view(), old_v[j - 1].name_view());
                    }
                    lemma_str_less_transitive(old_v[i].name_view(), x.name_view(), old_v[j - 1].name_view());
                }
            } else if i == p {
                assert(nv[j] == old_v[j - 1]);
                if j - 1 > p {
                    assert(str_less(old_v[p as int].name_view(), old_v[j - 1].name_view()));
                    lemma_str_less_transitive(x.name_view(), old_v[p as int].name_view(), old_v[j - 1].name_view());
                }
            } else {
                assert(nv[i] == old_v[i - 1] && nv[j] == old_v[j - 1]);
            }
        }
    }
}

} // verus!
