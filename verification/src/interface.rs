//! Network interfaces.

use vstd::prelude::*;
use crate::text::same_text;

verus! {

/// A network interface and whether it is up.
#[derive(Debug)]
pub struct Interface {
    pub name: String,
    pub is_up: bool,
}

impl Clone for Interface {
    fn clone(&self) -> (r: Interface)
        ensures
            r == *self,
    {
        Interface { name: self.name.clone(), is_up: self.is_up }
    }
}

/// Whether one of the interfaces has the name `name`.
pub open spec fn has_name(list: Seq<Interface>, name: Seq<char>) -> bool {
    exists|i: int| 0 <= i < list.len() && (#[trigger] list[i]).name@ == name
}

/// The entries whose name did not occur before, in order.
pub open spec fn first_of_each_name(entries: Seq<Interface>) -> Seq<Interface>
    decreases entries.len(),
{
    if entries.len() == 0 {
        Seq::empty()
    } else {
        let before = first_of_each_name(entries.drop_last());
        if has_name(before, entries.last().name@) {
            before
        } else {
            before.push(entries.last())
        }
    }
}

/// Whether one of the interfaces has the name `name`.
fn is_listed(list: &Vec<Interface>, name: &str) -> (r: bool)
    ensures
        r == has_name(list@, name@),
{
    let mut i: usize = 0;
    while i < list.len()
        invariant
            i <= list@.len(),
            forall|j: int| 0 <= j < i ==> (#[trigger] list@[j]).name@ != name@,
        decreases list@.len() - i,
    {
        if same_text(list[i].name.as_str(), name) {
            return true;
        }
        i = i + 1;
    }
    false
}

/// Reduces what the system reports, one entry per address, to one entry per
/// interface: the first one counts.
pub fn discover_interfaces(entries: &Vec<Interface>) -> (r: Vec<Interface>)
    ensures
        r@ == first_of_each_name(entries@),
{
    let mut r: Vec<Interface> = Vec::new();
    let mut i: usize = 0;
    proof {
        assert(entries@.take(0) =~= Seq::<Interface>::empty());
        assert(r@ =~= Seq::<Interface>::empty());
    }
    while i < entries.len()
        invariant
            i <= entries@.len(),
            r@ == first_of_each_name(entries@.take(i as int)),
        decreases entries@.len() - i,
    {
        proof {
            assert(entries@.take(i as int + 1).drop_last() =~= entries@.take(i as int));
            assert(entries@.take(i as int + 1).last() == entries@[i as int]);
        }
        if !is_listed(&r, entries[i].name.as_str()) {
            r.push(entries[i].clone());
        }
        i = i + 1;
    }
    proof {
        assert(entries@.take(entries@.len() as int) =~= entries@);
    }
    r
}

/// Discovery names every reported interface, and names each just once.
pub proof fn discovery_is_complete_and_distinct(entries: Seq<Interface>)
    ensures
        forall|i: int|
            0 <= i < entries.len() ==> has_name(
                first_of_each_name(entries),
                (#[trigger] entries[i]).name@,
            ),
        forall|i: int, j: int|
            0 <= i < j < first_of_each_name(entries).len() ==> (
            #[trigger] first_of_each_name(entries)[i]).name@ != (
            #[trigger] first_of_each_name(entries)[j]).name@,
    decreases entries.len(),
{
    if entries.len() > 0 {
        let front = entries.drop_last();
        let before = first_of_each_name(front);
        let all = first_of_each_name(entries);
        discovery_is_complete_and_distinct(front);
        assert forall|i: int| 0 <= i < entries.len() implies has_name(
            all,
            (#[trigger] entries[i]).name@,
        ) by {
            if i < front.len() {
                assert(front[i] == entries[i]);
                let k = choose|k: int|
                    0 <= k < before.len() && (#[trigger] before[k]).name@ == entries[i].name@;
                assert(all[k] == before[k]);
            } else if !has_name(before, entries.last().name@) {
                assert(all[all.len() - 1] == entries[i]);
            }
        }
        assert forall|i: int, j: int| 0 <= i < j < all.len() implies (#[trigger] all[i]).name@ != (
        #[trigger] all[j]).name@ by {
            assert(all[i] == before[i]);
            if j < before.len() {
                assert(all[j] == before[j]);
            }
        }
    }
}

/// Whether the `i`-th entry is the first of its name.
pub open spec fn is_first_of_name(entries: Seq<Interface>, i: int) -> bool {
    &&& 0 <= i < entries.len()
    &&& forall|j: int| 0 <= j < i ==> (#[trigger] entries[j]).name@ != entries[i].name@
}

/// What is found of an interface, and whether it is up, is what the first entry
/// of its name says.
pub proof fn found_interfaces_are_first_entries(entries: Seq<Interface>, k: int)
    requires
        0 <= k < first_of_each_name(entries).len(),
    ensures
        exists|i: int| #[trigger]
            is_first_of_name(entries, i) && entries[i] == first_of_each_name(entries)[k],
{
    let i = lemma_first_entry(entries, k);
    assert(is_first_of_name(entries, i));
}

/// The first entry of every name is found.
pub proof fn first_entries_are_found(entries: Seq<Interface>, i: int)
    requires
        is_first_of_name(entries, i),
    ensures
        first_of_each_name(entries).contains(entries[i]),
{
    let k = lemma_found(entries, i);
}

/// Interfaces are found in the order of their first entries.
pub proof fn found_interfaces_keep_their_order(
    entries: Seq<Interface>,
    k: int,
    l: int,
    i: int,
    j: int,
)
    requires
        0 <= k < l < first_of_each_name(entries).len(),
        is_first_of_name(entries, i),
        is_first_of_name(entries, j),
        entries[i] == first_of_each_name(entries)[k],
        entries[j] == first_of_each_name(entries)[l],
    ensures
        i < j,
{
    lemma_found_order(entries, k, l, i, j);
}

/// Where a found interface comes from.
proof fn lemma_first_entry(entries: Seq<Interface>, k: int) -> (i: int)
    requires
        0 <= k < first_of_each_name(entries).len(),
    ensures
        is_first_of_name(entries, i),
        entries[i] == first_of_each_name(entries)[k],
    decreases entries.len(),
{
    let front = entries.drop_last();
    let before = first_of_each_name(front);
    if k < before.len() {
        let i = lemma_first_entry(front, k);
        assert(entries[i] == front[i]);
        assert forall|j: int| 0 <= j < i implies (#[trigger] entries[j]).name@
            != entries[i].name@ by {
            assert(entries[j] == front[j]);
        }
        i
    } else {
        let i = entries.len() - 1;
        discovery_is_complete_and_distinct(front);
        assert forall|j: int| 0 <= j < i implies (#[trigger] entries[j]).name@
            != entries[i].name@ by {
            assert(entries[j] == front[j]);
            assert(has_name(before, front[j].name@));
        }
        i
    }
}

/// The first entry of a name is found.
proof fn lemma_found(entries: Seq<Interface>, i: int) -> (k: int)
    requires
        is_first_of_name(entries, i),
    ensures
        0 <= k < first_of_each_name(entries).len(),
        first_of_each_name(entries)[k] == entries[i],
    decreases entries.len(),
{
    let front = entries.drop_last();
    let before = first_of_each_name(front);
    if i < front.len() {
        assert forall|j: int| 0 <= j < i implies (#[trigger] front[j]).name@
            != front[i].name@ by {
            assert(entries[j] == front[j]);
        }
        lemma_found(front, i)
    } else {
        if has_name(before, entries.last().name@) {
            let k = choose|k: int|
                0 <= k < before.len() && (#[trigger] before[k]).name@ == entries.last().name@;
            let j = lemma_first_entry(front, k);
            assert(entries[j] == front[j]);
        }
        before.len() as int
    }
}

/// Interfaces are found in the order of their first entries.
proof fn lemma_found_order(entries: Seq<Interface>, k: int, l: int, i: int, j: int)
    requires
        0 <= k < l < first_of_each_name(entries).len(),
        is_first_of_name(entries, i),
        is_first_of_name(entries, j),
        entries[i] == first_of_each_name(entries)[k],
        entries[j] == first_of_each_name(entries)[l],
    ensures
        i < j,
    decreases entries.len(),
{
    let front = entries.drop_last();
    let before = first_of_each_name(front);
    let ki = lemma_first_entry(front, k);
    assert(entries[ki] == front[ki]);
    if ki < i {
        assert(entries[ki].name@ != entries[i].name@);
    }
    assert(i <= ki);
    assert(forall|m: int| 0 <= m < front.len() ==> entries[m] == front[m]);
    if l < before.len() {
        let lj = lemma_first_entry(front, l);
        if lj < j {
            assert(entries[lj].name@ != entries[j].name@);
        }
        assert(is_first_of_name(front, i)) by {
            assert forall|m: int| 0 <= m < i implies (#[trigger] front[m]).name@
                != front[i].name@ by {
                assert(entries[m] == front[m]);
            }
        }
        assert(is_first_of_name(front, j)) by {
            assert forall|m: int| 0 <= m < j implies (#[trigger] front[m]).name@
                != front[j].name@ by {
                assert(entries[m] == front[m]);
            }
        }
        lemma_found_order(front, k, l, i, j);
    } else if j < front.len() {
        discovery_is_complete_and_distinct(front);
        assert(has_name(before, front[j].name@));
    }
}

} // verus!
