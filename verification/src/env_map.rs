//! A map from names to values, as a process environment is one: every name occurs once, and
//! the entries are kept in the order of their names, so that two maps with the same content
//! are the same value.

use crate::text::{lemma_precedes_irreflexive, lemma_precedes_transitive, precedes, rank, Rank};
use vstd::prelude::*;

verus! {

/// A list of names with their values.
pub type Pairs = Seq<(Seq<char>, Seq<char>)>;

/// What a list of owned pairs holds, as text.
pub open spec fn pairs_view(pairs: Seq<(String, String)>) -> Pairs {
    pairs.map_values(|pair: (String, String)| (pair.0@, pair.1@))
}

/// The names of `pairs` stand in strictly ascending order.
pub open spec fn sorted(pairs: Pairs) -> bool {
    forall|i: int, j: int|
        0 <= i < j < pairs.len() ==> precedes(#[trigger] pairs[i].0, #[trigger] pairs[j].0)
}

/// `name` is the name of one of `pairs`.
pub open spec fn has_name(pairs: Pairs, name: Seq<char>) -> bool {
    exists|i: int| 0 <= i < pairs.len() && (#[trigger] pairs[i]).0 == name
}

/// A position at which `name` stands in `pairs`.
pub open spec fn position_of(pairs: Pairs, name: Seq<char>) -> int {
    choose|i: int| 0 <= i < pairs.len() && (#[trigger] pairs[i]).0 == name
}

/// The map that gives each name of `pairs` its value.
pub open spec fn to_map(pairs: Pairs) -> Map<Seq<char>, Seq<char>> {
    Map::new(
        |name: Seq<char>| has_name(pairs, name),
        |name: Seq<char>| pairs[position_of(pairs, name)].1,
    )
}

/// In a sorted list no name stands at two positions.
pub proof fn lemma_sorted_distinct(pairs: Pairs, i: int, j: int)
    requires
        sorted(pairs),
        0 <= i < pairs.len(),
        0 <= j < pairs.len(),
        pairs[i].0 == pairs[j].0,
    ensures
        i == j,
{
    lemma_precedes_irreflexive(pairs[i].0, 0);
}

/// The map of a sorted list holds each of its pairs.
pub proof fn lemma_to_map_holds(pairs: Pairs, i: int)
    requires
        sorted(pairs),
        0 <= i < pairs.len(),
    ensures
        to_map(pairs).contains_key(pairs[i].0),
        to_map(pairs)[pairs[i].0] == pairs[i].1,
{
    let name = pairs[i].0;
    assert(has_name(pairs, name));
    lemma_sorted_distinct(pairs, i, position_of(pairs, name));
}

/// A name that belongs between its neighbours at position `at` is new to the list, and putting
/// it there keeps the list sorted and adds it to the map.
pub proof fn lemma_insert_new(pairs: Pairs, at: int, name: Seq<char>, value: Seq<char>)
    requires
        sorted(pairs),
        0 <= at <= pairs.len(),
        forall|j: int| 0 <= j < at ==> precedes((#[trigger] pairs[j]).0, name),
        at < pairs.len() ==> precedes(name, pairs[at].0),
    ensures
        !has_name(pairs, name),
        sorted(pairs.insert(at, (name, value))),
        to_map(pairs.insert(at, (name, value))) == to_map(pairs).insert(name, value),
{
    let grown = pairs.insert(at, (name, value));
    assert forall|j: int| at <= j < pairs.len() implies precedes(name, (#[trigger] pairs[j]).0) by {
        if at < j {
            lemma_precedes_transitive(name, pairs[at].0, pairs[j].0, 0);
        }
    }
    assert forall|j: int| 0 <= j < pairs.len() implies (#[trigger] pairs[j]).0 != name by {
        lemma_precedes_irreflexive(name, 0);
    }
    assert(sorted(grown)) by {
        assert forall|i: int, j: int| 0 <= i < j < grown.len() implies precedes(
            #[trigger] grown[i].0,
            #[trigger] grown[j].0,
        ) by {
            let pi = if i < at { i } else { i - 1 };
            let pj = if j < at { j } else { j - 1 };
            if i != at {
                assert(grown[i] == pairs[pi]);
            }
            if j != at {
                assert(grown[j] == pairs[pj]);
            }
        }
    }
    assert forall|key: Seq<char>|
        has_name(grown, key) <==> (key == name || has_name(pairs, key)) by {
        if has_name(grown, key) {
            let g = position_of(grown, key);
            if g != at {
                let p = if g < at { g } else { g - 1 };
                assert(pairs[p] == grown[g]);
            }
        }
        if has_name(pairs, key) {
            let p = position_of(pairs, key);
            let g = if p < at { p } else { p + 1 };
            assert(grown[g] == pairs[p]);
        }
        if key == name {
            assert(grown[at].0 == key);
        }
    }
    assert forall|key: Seq<char>| has_name(grown, key) implies #[trigger] to_map(grown)[key]
        == to_map(pairs).insert(name, value)[key] by {
        if key == name {
            lemma_to_map_holds(grown, at);
        } else {
            let p = position_of(pairs, key);
            let g = if p < at { p } else { p + 1 };
            assert(grown[g] == pairs[p]);
            lemma_to_map_holds(grown, g);
            lemma_to_map_holds(pairs, p);
        }
    }
    assert(to_map(grown) =~= to_map(pairs).insert(name, value));
}

/// Giving the pair at position `at` a new value keeps the list sorted and updates the map.
pub proof fn lemma_update_value(pairs: Pairs, at: int, value: Seq<char>)
    requires
        sorted(pairs),
        0 <= at < pairs.len(),
    ensures
        sorted(pairs.update(at, (pairs[at].0, value))),
        to_map(pairs.update(at, (pairs[at].0, value))) == to_map(pairs).insert(pairs[at].0, value),
{
    let name = pairs[at].0;
    let changed = pairs.update(at, (name, value));
    assert(sorted(changed)) by {
        assert forall|i: int, j: int| 0 <= i < j < changed.len() implies precedes(
            #[trigger] changed[i].0,
            #[trigger] changed[j].0,
        ) by {
            assert(changed[i].0 == pairs[i].0);
            assert(changed[j].0 == pairs[j].0);
        }
    }
    assert forall|key: Seq<char>| has_name(changed, key) <==> has_name(pairs, key) by {
        if has_name(changed, key) {
            let g = position_of(changed, key);
            assert(pairs[g].0 == key);
        }
        if has_name(pairs, key) {
            let p = position_of(pairs, key);
            assert(changed[p].0 == key);
        }
    }
    assert(has_name(pairs, name));
    assert forall|key: Seq<char>| has_name(changed, key) implies #[trigger] to_map(changed)[key]
        == to_map(pairs).insert(name, value)[key] by {
        let p = position_of(pairs, key);
        assert(changed[p].0 == key);
        lemma_to_map_holds(changed, p);
        lemma_to_map_holds(pairs, p);
        if key == name {
            lemma_sorted_distinct(pairs, p, at);
        }
    }
    assert(to_map(changed) =~= to_map(pairs).insert(name, value));
}

/// A sorted list is its last pair put behind the sorted list of the others.
pub proof fn lemma_drop_last(pairs: Pairs)
    requires
        sorted(pairs),
        pairs.len() > 0,
    ensures
        sorted(pairs.drop_last()),
        !has_name(pairs.drop_last(), pairs.last().0),
        to_map(pairs) == to_map(pairs.drop_last()).insert(pairs.last().0, pairs.last().1),
{
    let front = pairs.drop_last();
    assert forall|i: int, j: int| 0 <= i < j < front.len() implies precedes(
        #[trigger] front[i].0,
        #[trigger] front[j].0,
    ) by {
        assert(front[i] == pairs[i]);
        assert(front[j] == pairs[j]);
    }
    assert forall|j: int| 0 <= j < front.len() implies precedes(
        (#[trigger] front[j]).0,
        pairs.last().0,
    ) by {
        assert(front[j] == pairs[j]);
    }
    lemma_insert_new(front, front.len() as int, pairs.last().0, pairs.last().1);
    assert(front.insert(front.len() as int, pairs.last()) =~= pairs);
}

/// Two sorted lists that make the same map are the same list: the order in which a map was
/// filled leaves no trace in it.
pub proof fn lemma_sorted_unique(a: Pairs, b: Pairs)
    requires
        sorted(a),
        sorted(b),
        to_map(a) == to_map(b),
    ensures
        a == b,
    decreases a.len(),
{
    if a.len() == 0 {
        if b.len() > 0 {
            lemma_to_map_holds(b, 0);
            assert(has_name(a, b[0].0));
        }
        assert(a =~= b);
    } else {
        lemma_to_map_holds(a, a.len() - 1);
        let in_b = position_of(b, a.last().0);
        assert(has_name(b, a.last().0));
        lemma_to_map_holds(b, b.len() - 1);
        let in_a = position_of(a, b.last().0);
        assert(has_name(a, b.last().0));
        if a.last().0 != b.last().0 {
            assert(precedes(b[in_b].0, b.last().0));
            assert(precedes(a[in_a].0, a.last().0));
            lemma_precedes_transitive(a.last().0, b.last().0, a.last().0, 0);
            lemma_precedes_irreflexive(a.last().0, 0);
        }
        lemma_drop_last(a);
        lemma_drop_last(b);
        assert(to_map(a.drop_last()) =~= to_map(a).remove(a.last().0));
        assert(to_map(b.drop_last()) =~= to_map(b).remove(b.last().0));
        lemma_sorted_unique(a.drop_last(), b.drop_last());
        assert(a.last().1 == b.last().1);
        assert(a =~= a.drop_last().push(a.last()));
        assert(b =~= b.drop_last().push(b.last()));
    }
}

/// The first pairs of a sorted list are sorted, and each one more of them adds its pair to
/// their map.
pub proof fn lemma_take(pairs: Pairs, upto: int)
    requires
        sorted(pairs),
        0 < upto <= pairs.len(),
    ensures
        sorted(pairs.take(upto)),
        to_map(pairs.take(upto)) == to_map(pairs.take(upto - 1)).insert(
            pairs[upto - 1].0,
            pairs[upto - 1].1,
        ),
{
    let front = pairs.take(upto);
    assert forall|i: int, j: int| 0 <= i < j < front.len() implies precedes(
        #[trigger] front[i].0,
        #[trigger] front[j].0,
    ) by {
        assert(front[i] == pairs[i]);
        assert(front[j] == pairs[j]);
    }
    lemma_drop_last(front);
    assert(front.drop_last() =~= pairs.take(upto - 1));
}

/// The map can be written down as a sorted list of pairs, as every map with finitely many
/// names can.
pub open spec fn is_listable(map: Map<Seq<char>, Seq<char>>) -> bool {
    exists|pairs: Pairs| sorted(pairs) && to_map(pairs) == map
}

/// The sorted list of the pairs of `map`.
pub open spec fn listed(map: Map<Seq<char>, Seq<char>>) -> Pairs {
    choose|pairs: Pairs| sorted(pairs) && to_map(pairs) == map
}

/// A sorted list is the list of its map.
pub proof fn lemma_listed(pairs: Pairs)
    requires
        sorted(pairs),
    ensures
        is_listable(to_map(pairs)),
        listed(to_map(pairs)) == pairs,
{
    lemma_sorted_unique(listed(to_map(pairs)), pairs);
}

/// Maps with the same sorted list are the same map.
pub proof fn lemma_listed_injective(a: Map<Seq<char>, Seq<char>>, b: Map<Seq<char>, Seq<char>>)
    requires
        is_listable(a),
        is_listable(b),
        listed(a) == listed(b),
    ensures
        a == b,
{
}

/// The pairs of a sorted list from position `from` on are sorted, and each one more of them
/// adds its pair to their map.
pub proof fn lemma_skip(pairs: Pairs, from: int)
    requires
        sorted(pairs),
        0 <= from <= pairs.len(),
    ensures
        sorted(pairs.skip(from)),
        from > 0 ==> to_map(pairs.skip(from - 1)) == to_map(pairs.skip(from)).insert(
            pairs[from - 1].0,
            pairs[from - 1].1,
        ),
{
    let rest = pairs.skip(from);
    assert forall|i: int, j: int| 0 <= i < j < rest.len() implies precedes(
        #[trigger] rest[i].0,
        #[trigger] rest[j].0,
    ) by {
        assert(rest[i] == pairs[from + i]);
        assert(rest[j] == pairs[from + j]);
    }
    if from > 0 {
        if rest.len() > 0 {
            assert(rest[0] == pairs[from]);
        }
        lemma_insert_new(rest, 0, pairs[from - 1].0, pairs[from - 1].1);
        assert(rest.insert(0, pairs[from - 1]) =~= pairs.skip(from - 1));
    }
}

/// A map from names to values with its entries in the order of their names.
#[derive(Debug, PartialEq, Eq)]
pub struct EnvMap {
    entries: Vec<(String, String)>,
}

impl View for EnvMap {
    type V = Map<Seq<char>, Seq<char>>;

    open spec fn view(&self) -> Map<Seq<char>, Seq<char>> {
        to_map(self.entries())
    }
}

impl Clone for EnvMap {
    fn clone(&self) -> (copy: EnvMap)
        ensures
            copy.entries() == self.entries(),
            copy@ == self@,
    {
        let mut entries: Vec<(String, String)> = Vec::new();
        let mut i: usize = 0;
        while i < self.entries.len()
            invariant
                i <= self.entries.len(),
                pairs_view(entries@) == pairs_view(self.entries@).take(i as int),
            decreases self.entries.len() - i,
        {
            let ghost copied = pairs_view(entries@);
            let name = self.entries[i].0.clone();
            let value = self.entries[i].1.clone();
            entries.push((name, value));
            proof {
                assert(pairs_view(entries@) =~= copied.push((name@, value@)));
                assert(pairs_view(self.entries@).take(i + 1) =~= copied.push(
                    pairs_view(self.entries@)[i as int],
                ));
            }
            i += 1;
        }
        proof {
            use_type_invariant(self);
            assert(pairs_view(self.entries@).take(i as int) =~= pairs_view(self.entries@));
        }
        EnvMap { entries }
    }
}

impl Default for EnvMap {
    fn default() -> (map: EnvMap)
        ensures
            map.entries() == Pairs::empty(),
            map@ == Map::<Seq<char>, Seq<char>>::empty(),
    {
        EnvMap::new()
    }
}

impl EnvMap {
    /// The entries, in the order of their names.
    pub closed spec fn entries(&self) -> Pairs {
        pairs_view(self.entries@)
    }

    /// The entries stand in strictly ascending order of their names.
    #[verifier::type_invariant]
    pub closed spec fn ordered(&self) -> bool {
        sorted(pairs_view(self.entries@))
    }

    /// The entries of a map in use are the sorted list of the map.
    pub proof fn lemma_ordered(&self)
        requires
            self.ordered(),
        ensures
            sorted(self.entries()),
            is_listable(self@),
            listed(self@) == self.entries(),
    {
        lemma_listed(self.entries());
    }

    /// A map without entries.
    pub fn new() -> (map: EnvMap)
        ensures
            map.entries() == Pairs::empty(),
            map@ == Map::<Seq<char>, Seq<char>>::empty(),
    {
        let map = EnvMap { entries: Vec::new() };
        assert(map.entries() =~= Pairs::empty());
        assert(map@ =~= Map::<Seq<char>, Seq<char>>::empty());
        map
    }

    /// The number of entries.
    pub fn len(&self) -> (n: usize)
        ensures
            n == self.entries().len(),
    {
        self.entries.len()
    }

    /// Where `name` stands among the entries, or where it would have to be put.
    fn locate(&self, name: &str) -> (found: (usize, bool))
        ensures
            sorted(self.entries()),
            found.0 <= self.entries().len(),
            forall|j: int| 0 <= j < found.0 ==> precedes((#[trigger] self.entries()[j]).0, name@),
            found.1 ==> found.0 < self.entries().len() && self.entries()[found.0 as int].0 == name@,
            !found.1 && found.0 < self.entries().len() ==> precedes(
                name@,
                self.entries()[found.0 as int].0,
            ),
    {
        proof {
            use_type_invariant(self);
        }
        let mut at: usize = 0;
        while at < self.entries.len()
            invariant
                at <= self.entries.len(),
                sorted(self.entries()),
                forall|j: int| 0 <= j < at ==> precedes((#[trigger] self.entries()[j]).0, name@),
            decreases self.entries.len() - at,
        {
            match rank(self.entries[at].0.as_str(), name) {
                Rank::Before => {},
                Rank::Same => {
                    return (at, true);
                },
                Rank::After => {
                    return (at, false);
                },
            }
            at += 1;
        }
        (at, false)
    }

    /// The value that stands under `name`, if there is one.
    pub fn get(&self, name: &str) -> (value: Option<&String>)
        ensures
            match value {
                Some(text) => self@.contains_key(name@) && self@[name@] == text@,
                None => !self@.contains_key(name@),
            },
    {
        let (at, found) = self.locate(name);
        if found {
            proof {
                lemma_to_map_holds(self.entries(), at as int);
            }
            Some(&self.entries[at].1)
        } else {
            proof {
                lemma_insert_new(self.entries(), at as int, name@, name@);
            }
            None
        }
    }

    /// Puts `value` under `name`. A value that stood there before is replaced and returned.
    pub fn insert(&mut self, name: String, value: String) -> (previous: Option<String>)
        ensures
            final(self)@ == old(self)@.insert(name@, value@),
            match previous {
                Some(text) => old(self)@.contains_key(name@) && old(self)@[name@] == text@,
                None => !old(self)@.contains_key(name@),
            },
    {
        let (at, found) = self.locate(name.as_str());
        let ghost before = self.entries();
        if found {
            proof {
                lemma_to_map_holds(before, at as int);
                lemma_update_value(before, at as int, value@);
            }
            let mut entries: Vec<(String, String)> = Vec::new();
            core::mem::swap(&mut self.entries, &mut entries);
            let replaced = entries.remove(at);
            entries.insert(at, (name, value));
            proof {
                assert(pairs_view(entries@) =~= before.update(
                    at as int,
                    (before[at as int].0, value@),
                ));
            }
            self.entries = entries;
            Some(replaced.1)
        } else {
            proof {
                lemma_insert_new(before, at as int, name@, value@);
            }
            let mut entries: Vec<(String, String)> = Vec::new();
            core::mem::swap(&mut self.entries, &mut entries);
            entries.insert(at, (name, value));
            proof {
                assert(pairs_view(entries@) =~= before.insert(at as int, (name@, value@)));
            }
            self.entries = entries;
            None
        }
    }

    /// Puts every entry of `other` into this map. Where both hold a name, the value of
    /// `other` stays.
    pub fn extend(&mut self, other: EnvMap)
        ensures
            final(self)@ == old(self)@.union_prefer_right(other@),
            forall|name: Seq<char>| #[trigger]
                other@.contains_key(name) ==> final(self)@[name] == other@[name],
    {
        proof {
            use_type_invariant(&other);
        }
        let ghost all = other.entries();
        let ghost start = self@;
        let mut pairs = other.entries;
        proof {
            assert(all.skip(all.len() as int) =~= Pairs::empty());
            assert(start.union_prefer_right(to_map(Pairs::empty())) =~= start);
        }
        while pairs.len() > 0
            invariant
                sorted(all),
                pairs.len() <= all.len(),
                pairs_view(pairs@) == all.take(pairs.len() as int),
                self@ == start.union_prefer_right(to_map(all.skip(pairs.len() as int))),
            decreases pairs.len(),
        {
            let ghost n = pairs.len() as int;
            let ghost before = self@;
            let last = pairs.pop();
            if let Some((name, value)) = last {
                proof {
                    assert(pairs_view(pairs@) =~= all.take(n - 1));
                    assert((name@, value@) == all.take(n)[n - 1]);
                    lemma_skip(all, n);
                    assert(start.union_prefer_right(to_map(all.skip(n))).insert(name@, value@)
                        =~= start.union_prefer_right(to_map(all.skip(n - 1))));
                }
                self.insert(name, value);
            }
        }
        proof {
            assert(all.skip(0) =~= all);
        }
    }

    /// The entries as a list of pairs, in the order of their names.
    pub fn into_pairs(self) -> (pairs: Vec<(String, String)>)
        ensures
            pairs_view(pairs@) == self.entries(),
            sorted(self.entries()),
    {
        proof {
            use_type_invariant(&self);
        }
        self.entries
    }

    /// The name and the value at position `at` of the entries.
    pub fn entry(&self, at: usize) -> (pair: (&String, &String))
        requires
            at < self.entries().len(),
        ensures
            (pair.0@, pair.1@) == self.entries()[at as int],
            sorted(self.entries()),
    {
        proof {
            use_type_invariant(self);
        }
        (&self.entries[at].0, &self.entries[at].1)
    }
}

} // verus!
