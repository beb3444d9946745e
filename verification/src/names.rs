//! Sets of names.

use crate::text::views;
use vstd::prelude::*;

verus! {

broadcast use vstd::string::group_string_axioms;

/// A set of names, none held twice.
#[derive(Debug)]
pub struct NameSet {
    pub items: Vec<String>,
}

impl View for NameSet {
    type V = Set<Seq<char>>;

    open spec fn view(&self) -> Set<Seq<char>> {
        views(self.items@).to_set()
    }
}

/// Whether a list of texts holds `name`.
pub fn contains_text(items: &Vec<String>, name: &str) -> (r: bool)
    ensures
        r == views(items@).contains(name@),
{
    let mut i: usize = 0;
    while i < items.len()
        invariant
            i <= items.len(),
            forall|j: int| 0 <= j < i ==> #[trigger] items@[j]@ != name@,
        decreases items.len() - i,
    {
        if crate::text::same_text(&items[i], name) {
            proof {
                assert(views(items@)[i as int] == name@);
            }
            return true;
        }
        i = i + 1;
    }
    proof {
        assert forall|j: int| 0 <= j < views(items@).len() implies views(items@)[j] != name@ by {
            assert(items@[j]@ != name@);
        }
    }
    false
}

impl NameSet {
    pub open spec fn wf(&self) -> bool {
        views(self.items@).no_duplicates()
    }

    pub fn new() -> (r: NameSet)
        ensures
            r.wf(),
            r@ == Set::<Seq<char>>::empty(),
    {
        let r = NameSet { items: Vec::new() };
        proof {
            assert(r@ =~= Set::<Seq<char>>::empty());
        }
        r
    }

    pub fn contains(&self, name: &str) -> (r: bool)
        ensures
            r == self@.contains(name@),
    {
        contains_text(&self.items, name)
    }

    pub fn is_empty(&self) -> (r: bool)
        ensures
            r == (self@ == Set::<Seq<char>>::empty()),
    {
        if self.items.len() == 0 {
            proof {
                assert(self@ =~= Set::<Seq<char>>::empty());
            }
            true
        } else {
            proof {
                assert(views(self.items@)[0] == self.items@[0]@);
                assert(self@.contains(self.items@[0]@));
            }
            false
        }
    }

    pub fn insert(&mut self, name: String)
        requires
            old(self).wf(),
        ensures
            final(self).wf(),
            final(self)@ == old(self)@.insert(name@),
    {
        let ghost before = views(self.items@);
        let ghost n = name@;
        if !self.contains(&name) {
            self.items.push(name);
            proof {
                let after = before.push(n);
                assert(views(self.items@) =~= after);
                assert forall|x: Seq<char>| after.to_set().contains(x) == before.to_set().insert(
                    n,
                ).contains(x) by {
                    if before.contains(x) {
                        let k = choose|k: int| 0 <= k < before.len() && before[k] == x;
                        assert(after[k] == x);
                    }
                    assert(after[before.len() as int] == n);
                }
                assert(after.to_set() =~= before.to_set().insert(n));
            }
        } else {
            proof {
                assert(before.to_set() =~= before.to_set().insert(n));
            }
        }
    }

    pub fn remove(&mut self, name: &str)
        requires
            old(self).wf(),
        ensures
            final(self).wf(),
            final(self)@ == old(self)@.remove(name@),
    {
        let ghost before = views(self.items@);
        let ghost n = name@;
        let mut i: usize = 0;
        while i < self.items.len()
            invariant
                before == views(self.items@),
                before == views(old(self).items@),
                before.no_duplicates(),
                n == name@,
                i <= self.items.len(),
                forall|j: int| 0 <= j < i ==> #[trigger] before[j] != n,
            decreases self.items.len() - i,
        {
            if crate::text::same_text(&self.items[i], name) {
                self.items.remove(i);
                proof {
                    let after = before.remove(i as int);
                    assert(views(self.items@) =~= after);
                    assert(before[i as int] == n);
                    assert forall|x: Seq<char>| after.to_set().contains(x)
                        == before.to_set().remove(n).contains(x) by {
                        if after.contains(x) {
                            let k = choose|k: int| 0 <= k < after.len() && after[k] == x;
                            let m = if k < i { k } else { k + 1 };
                            assert(before[m] == x);
                        }
                        if before.contains(x) && x != n {
                            let k = choose|k: int| 0 <= k < before.len() && before[k] == x;
                            let m = if k < i { k } else { k - 1 };
                            assert(after[m] == x);
                        }
                    }
                    assert(after.to_set() =~= before.to_set().remove(n));
                }
                return;
            }
            proof {
                assert(before[i as int] == self.items@[i as int]@);
            }
            i = i + 1;
        }
        proof {
            assert(before.to_set() =~= before.to_set().remove(n));
        }
    }
}

/// A set holds a name exactly where one of its items is that name.
pub proof fn law_set_holds_its_items(set: NameSet, name: Seq<char>)
    ensures
        set@.contains(name) <==> exists|i: int|
            0 <= i < set.items@.len() && (#[trigger] set.items@[i])@ == name,
{
    let all = views(set.items@);
    if set@.contains(name) {
        let i = all.index_of(name);
        assert(set.items@[i]@ == name);
    }
    if exists|i: int| 0 <= i < set.items@.len() && (#[trigger] set.items@[i])@ == name {
        let i = choose|i: int| 0 <= i < set.items@.len() && (#[trigger] set.items@[i])@ == name;
        assert(all[i] == name);
    }
}

} // verus!
