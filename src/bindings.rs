//! The bindings store: metavariable names mapped to captured fragments.
use vstd::prelude::*;
use crate::semantic::SemCtx;
use crate::tree::{equiv, Fragment, Tree};

verus! {

/// The map that a list of entries denotes; a later entry for a name shadows
/// an earlier one.
pub open spec fn map_of(s: Seq<(u64, Fragment)>) -> Map<u64, Tree>
    decreases s.len(),
{
    if s.len() == 0 {
        Map::empty()
    } else {
        map_of(s.drop_last()).insert(s.last().0, s.last().1@)
    }
}

proof fn lemma_map_of_found(s: Seq<(u64, Fragment)>, j: int, k: u64)
    requires
        0 <= j < s.len(),
        s[j].0 == k,
        forall|m: int| j < m < s.len() ==> #[trigger] s[m].0 != k,
    ensures
        map_of(s).contains_key(k),
        map_of(s)[k] == s[j].1@,
    decreases s.len(),
{
    if j < s.len() - 1 {
        let t = s.drop_last();
        assert forall|m: int| j < m < t.len() implies #[trigger] t[m].0 != k by {
            assert(s[m].0 != k);
        }
        lemma_map_of_found(t, j, k);
    }
}

proof fn lemma_map_of_absent(s: Seq<(u64, Fragment)>, k: u64)
    requires
        forall|m: int| 0 <= m < s.len() ==> #[trigger] s[m].0 != k,
    ensures
        !map_of(s).contains_key(k),
    decreases s.len(),
{
    if s.len() > 0 {
        let t = s.drop_last();
        assert forall|m: int| 0 <= m < t.len() implies #[trigger] t[m].0 != k by {
            assert(s[m].0 != k);
        }
        lemma_map_of_absent(t, k);
    }
}

proof fn lemma_map_of_dom(s: Seq<(u64, Fragment)>, k: u64)
    ensures
        map_of(s).contains_key(k) <==> exists|i: int| 0 <= i < s.len() && #[trigger] s[i].0 == k,
    decreases s.len(),
{
    if s.len() > 0 {
        let t = s.drop_last();
        lemma_map_of_dom(t, k);
        if exists|i: int| 0 <= i < t.len() && #[trigger] t[i].0 == k {
            let i = choose|i: int| 0 <= i < t.len() && #[trigger] t[i].0 == k;
            assert(s[i].0 == k);
        }
        if exists|i: int| 0 <= i < s.len() && #[trigger] s[i].0 == k {
            let i = choose|i: int| 0 <= i < s.len() && #[trigger] s[i].0 == k;
            if i < t.len() {
                assert(t[i].0 == k);
            }
        }
    }
}

/// A mapping from metavariable name to the fragment it captured.
pub struct Bindings {
    entries: Vec<(u64, Fragment)>,
}

impl View for Bindings {
    type V = Map<u64, Tree>;

    closed spec fn view(&self) -> Map<u64, Tree> {
        map_of(self.entries@)
    }
}

impl Bindings {
    /// An empty store.
    pub fn new() -> (r: Bindings)
        ensures
            r@ == Map::<u64, Tree>::empty(),
    {
        Bindings { entries: Vec::new() }
    }

    /// The fragment bound to `name`, if any.
    pub fn get(&self, name: u64) -> (r: Option<&Fragment>)
        ensures
            r is Some <==> self@.contains_key(name),
            r is Some ==> r->0@ == self@[name],
    {
        let mut j: usize = self.entries.len();
        while j > 0
            invariant
                0 <= j <= self.entries.len(),
                forall|m: int| j <= m < self.entries.len() ==> #[trigger] self.entries@[m].0 != name,
            decreases j,
        {
            j = j - 1;
            if self.entries[j].0 == name {
                proof {
                    lemma_map_of_found(self.entries@, j as int, name);
                }
                return Some(&self.entries[j].1);
            }
        }
        proof {
            lemma_map_of_absent(self.entries@, name);
        }
        None
    }

    /// Whether `name` is bound.
    pub fn contains(&self, name: u64) -> (r: bool)
        ensures
            r == self@.contains_key(name),
    {
        self.get(name).is_some()
    }

    /// Binds `name` to `f`, replacing any earlier binding of it.
    pub fn bind(&mut self, name: u64, f: Fragment)
        ensures
            final(self)@ == old(self)@.insert(name, f@),
    {
        self.entries.push((name, f));
        proof {
            assert(final(self).entries@.drop_last() =~= old(self).entries@);
        }
    }

    /// The union of two stores, or `None` when some name bound in both is
    /// bound to fragments that are not equivalent under `sem`. Where a name
    /// is bound in both, the binding of `self` is kept.
    pub fn merge(&self, other: &Bindings, sem: &SemCtx) -> (r: Option<Bindings>)
        ensures
            r is Some <==> (forall|k: u64|
                self@.contains_key(k) && other@.contains_key(k) ==> equiv(
                    sem@,
                    #[trigger] self@[k],
                    other@[k],
                )),
            r is Some ==> r->0@ == other@.union_prefer_right(self@),
    {
        let mut out = self.copy();
        let ghost e = other.entries@;
        let mut j: usize = 0;
        while j < other.entries.len()
            invariant
                0 <= j <= other.entries.len(),
                e == other.entries@,
                forall|k: u64| #[trigger]
                    out@.contains_key(k) <==> (self@.contains_key(k) || exists|i: int|
                        0 <= i < j && #[trigger] e[i].0 == k),
                forall|k: u64| #[trigger] self@.contains_key(k) ==> out@[k] == self@[k],
                forall|k: u64|
                    !self@.contains_key(k) && #[trigger] out@.contains_key(k) ==> out@[k] == other@[k],
                forall|i: int|
                    0 <= i < j && self@.contains_key(#[trigger] e[i].0) ==> equiv(
                        sem@,
                        self@[e[i].0],
                        other@[e[i].0],
                    ),
            decreases other.entries.len() - j,
        {
            let k = other.entries[j].0;
            proof {
                lemma_map_of_dom(e, k);
            }
            let v = match other.get(k) {
                Some(v) => v,
                None => {
                    return None;
                },
            };
            match self.get(k) {
                Some(mine) => {
                    if !sem.equiv(mine, v) {
                        return None;
                    }
                },
                None => {
                    out.bind(k, v.copy());
                },
            }
            proof {
                assert forall|kk: u64| #[trigger]
                    out@.contains_key(kk) <==> (self@.contains_key(kk) || exists|i: int|
                        0 <= i < j + 1 && #[trigger] e[i].0 == kk) by {
                    if kk == k {
                        assert(e[j as int].0 == kk);
                    } else if exists|i: int| 0 <= i < j + 1 && #[trigger] e[i].0 == kk {
                        let i = choose|i: int| 0 <= i < j + 1 && #[trigger] e[i].0 == kk;
                        assert(i < j);
                    }
                }
            }
            j = j + 1;
        }
        proof {
            assert forall|k: u64| self@.contains_key(k) && other@.contains_key(k) implies equiv(
                sem@,
                #[trigger] self@[k],
                other@[k],
            ) by {
                lemma_map_of_dom(e, k);
                let i = choose|i: int| 0 <= i < e.len() && #[trigger] e[i].0 == k;
                assert(self@.contains_key(e[i].0));
            }
            assert forall|k: u64| #[trigger]
                out@.contains_key(k) <==> other@.union_prefer_right(self@).contains_key(k) by {
                lemma_map_of_dom(e, k);
            }
            assert(out@ =~= other@.union_prefer_right(self@));
        }
        Some(out)
    }

    /// A deep copy of the store.
    pub fn copy(&self) -> (r: Bindings)
        ensures
            r@ == self@,
    {
        let mut out: Vec<(u64, Fragment)> = Vec::new();
        let mut i: usize = 0;
        while i < self.entries.len()
            invariant
                0 <= i <= self.entries.len(),
                map_of(out@) == map_of(self.entries@.subrange(0, i as int)),
            decreases self.entries.len() - i,
        {
            let e = &self.entries[i];
            let f = e.1.copy();
            let ghost before = out@;
            out.push((e.0, f));
            proof {
                assert(out@.drop_last() =~= before);
                assert(self.entries@.subrange(0, i + 1).drop_last() =~= self.entries@.subrange(
                    0,
                    i as int,
                ));
            }
            i = i + 1;
        }
        assert(self.entries@.subrange(0, self.entries.len() as int) =~= self.entries@);
        Bindings { entries: out }
    }
}

} // verus!
