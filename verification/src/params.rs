//! The path parameters of a request.

use vstd::prelude::*;

use crate::text;
use crate::wire;
use crate::wire::TextPair;

verus! {

/// Parameters by name. Each name occurs once; names keep the order in which they
/// first came.
#[derive(Debug)]
pub struct PathParams {
    entries: Vec<(String, String)>,
}

/// Whether one of the entries has this name.
pub open spec fn has_name(entries: Seq<TextPair>, name: Seq<char>) -> bool {
    exists|i: int| 0 <= i < entries.len() && #[trigger] entries[i].0 == name
}

/// Whether no two entries have the same name.
pub open spec fn names_distinct(entries: Seq<TextPair>) -> bool {
    forall|i: int, j: int|
        #![trigger entries[i], entries[j]]
        0 <= i < j < entries.len() ==> entries[i].0 != entries[j].0
}

/// The value under `name`.
pub open spec fn value_of(entries: Seq<TextPair>, name: Seq<char>) -> Option<Seq<char>> {
    if has_name(entries, name) {
        let i = choose|i: int| 0 <= i < entries.len() && #[trigger] entries[i].0 == name;
        Some(entries[i].1)
    } else {
        None
    }
}

/// The entries once `name` holds `value`: a known name keeps its place, a new one
/// comes last.
pub open spec fn inserted(entries: Seq<TextPair>, name: Seq<char>, value: Seq<char>) -> Seq<
    TextPair,
> {
    if has_name(entries, name) {
        entries.map_values(
            |entry: TextPair|
                if entry.0 == name {
                    (name, value)
                } else {
                    entry
                },
        )
    } else {
        entries.push((name, value))
    }
}

/// The entries once each of the pairs has been inserted, the first one first.
pub open spec fn inserted_all(entries: Seq<TextPair>, pairs: Seq<TextPair>) -> Seq<TextPair>
    decreases pairs.len(),
{
    if pairs.len() == 0 {
        entries
    } else {
        inserted_all(inserted(entries, pairs[0].0, pairs[0].1), pairs.skip(1))
    }
}

impl View for PathParams {
    type V = Seq<TextPair>;

    closed spec fn view(&self) -> Seq<TextPair> {
        wire::pairs_view(self.entries@)
    }
}

impl Clone for PathParams {
    fn clone(&self) -> (copy: PathParams)
        ensures
            copy@ == self@,
    {
        proof {
            use_type_invariant(self);
        }
        PathParams { entries: wire::copy_pairs(&self.entries) }
    }
}

impl PathParams {
    #[verifier::type_invariant]
    spec fn wf(self) -> bool {
        names_distinct(self@)
    }

    /// No parameters.
    pub fn new() -> (params: PathParams)
        ensures
            params@ == Seq::<TextPair>::empty(),
    {
        let params = PathParams { entries: Vec::new() };
        assert(params@ =~= Seq::empty());
        params
    }

    /// The place of `name` among the entries.
    fn position(entries: &Vec<(String, String)>, name: &str) -> (at: Option<usize>)
        ensures
            match at {
                Some(i) => i < entries@.len() && entries@[i as int].0@ == name@,
                None => !has_name(wire::pairs_view(entries@), name@),
            },
    {
        let mut i: usize = 0;
        while i < entries.len()
            invariant
                i <= entries@.len(),
                forall|j: int| 0 <= j < i ==> (#[trigger] entries@[j]).0@ != name@,
            decreases entries@.len() - i,
        {
            if text::same_text(entries[i].0.as_str(), name) {
                return Some(i);
            }
            i += 1;
        }
        proof {
            let view = wire::pairs_view(entries@);
            assert forall|j: int| 0 <= j < view.len() implies #[trigger] view[j].0 != name@ by {
                assert(entries@[j].0@ != name@);
            }
        }
        None
    }

    /// Puts `value` under `name`, in place of what stood there.
    pub fn insert(&mut self, name: String, value: String)
        ensures
            final(self)@ == inserted(old(self)@, name@, value@),
            names_distinct(final(self)@),
    {
        proof {
            use_type_invariant(&*self);
        }
        let ghost before = self@;
        let ghost (n, v) = (name@, value@);
        let mut entries: Vec<(String, String)> = Vec::new();
        std::mem::swap(&mut entries, &mut self.entries);
        match PathParams::position(&entries, name.as_str()) {
            Some(i) => {
                entries[i] = (name, value);
                proof {
                    assert(before[i as int].0 == n);
                    assert(has_name(before, n));
                    assert(wire::pairs_view(entries@) =~= inserted(before, n, v));
                }
            },
            None => {
                entries.push((name, value));
                assert(wire::pairs_view(entries@) =~= inserted(before, n, v));
            },
        }
        proof {
            lemma_inserted_distinct(before, n, v);
        }
        self.entries = entries;
    }

    /// The parameters that come of inserting the pairs in turn.
    pub fn from_pairs(pairs: Vec<(String, String)>) -> (params: PathParams)
        ensures
            params@ == inserted_all(Seq::empty(), wire::pairs_view(pairs@)),
            names_distinct(params@),
    {
        let ghost all = wire::pairs_view(pairs@);
        let mut params = PathParams::new();
        let mut i: usize = 0;
        assert(all.skip(0) =~= all);
        while i < pairs.len()
            invariant
                i <= pairs@.len(),
                all == wire::pairs_view(pairs@),
                names_distinct(params@),
                inserted_all(params@, all.skip(i as int)) == inserted_all(Seq::empty(), all),
            decreases pairs@.len() - i,
        {
            let pair = &pairs[i];
            proof {
                assert(all.skip(i as int)[0] == all[i as int]);
                assert(all.skip(i as int).skip(1) =~= all.skip(i + 1));
            }
            params.insert(pair.0.clone(), pair.1.clone());
            i += 1;
        }
        params
    }

    /// The value under `name`.
    pub fn get(&self, name: &str) -> (value: Option<&str>)
        ensures
            match (value, value_of(self@, name@)) {
                (Some(v), Some(expected)) => v@ == expected,
                (None, None) => true,
                _ => false,
            },
    {
        proof {
            use_type_invariant(self);
        }
        match PathParams::position(&self.entries, name) {
            Some(i) => {
                proof {
                    assert(self@[i as int].0 == name@);
                    assert(has_name(self@, name@));
                }
                Some(self.entries[i].1.as_str())
            },
            None => None,
        }
    }

    /// The number of parameters.
    pub fn len(&self) -> (len: usize)
        ensures
            len == self@.len(),
    {
        self.entries.len()
    }

    /// Whether there is no parameter.
    pub fn is_empty(&self) -> (empty: bool)
        ensures
            empty == (self@.len() == 0),
    {
        self.entries.len() == 0
    }

    /// The names and values, in order.
    pub fn entries(&self) -> (entries: &Vec<(String, String)>)
        ensures
            wire::pairs_view(entries@) == self@,
            names_distinct(self@),
    {
        proof {
            use_type_invariant(self);
        }
        &self.entries
    }
}

/// Inserting keeps names distinct.
pub proof fn lemma_inserted_distinct(entries: Seq<TextPair>, name: Seq<char>, value: Seq<char>)
    requires
        names_distinct(entries),
    ensures
        names_distinct(inserted(entries, name, value)),
{
}

/// Inserting pairs in turn keeps names distinct.
pub proof fn inserted_all_distinct(entries: Seq<TextPair>, pairs: Seq<TextPair>)
    requires
        names_distinct(entries),
    ensures
        names_distinct(inserted_all(entries, pairs)),
    decreases pairs.len(),
{
    if pairs.len() > 0 {
        lemma_inserted_distinct(entries, pairs[0].0, pairs[0].1);
        inserted_all_distinct(inserted(entries, pairs[0].0, pairs[0].1), pairs.skip(1));
    }
}

/// Inserting pairs in turn adds at most one entry for each.
pub proof fn inserted_all_len(entries: Seq<TextPair>, pairs: Seq<TextPair>)
    ensures
        inserted_all(entries, pairs).len() <= entries.len() + pairs.len(),
    decreases pairs.len(),
{
    if pairs.len() > 0 {
        inserted_all_len(inserted(entries, pairs[0].0, pairs[0].1), pairs.skip(1));
    }
}

/// Pairs with names of their own come to stand behind the entries in their order.
pub proof fn inserted_all_appends(entries: Seq<TextPair>, pairs: Seq<TextPair>)
    requires
        names_distinct(entries + pairs),
    ensures
        inserted_all(entries, pairs) == entries + pairs,
    decreases pairs.len(),
{
    if pairs.len() == 0 {
        assert(entries + pairs =~= entries);
    } else {
        let all = entries + pairs;
        let (name, value) = pairs[0];
        assert forall|i: int| 0 <= i < entries.len() implies #[trigger] entries[i].0 != name by {
            assert(all[i] == entries[i]);
            assert(all[entries.len() as int] == pairs[0]);
        }
        assert(inserted(entries, name, value) =~= entries.push(pairs[0]));
        assert(entries.push(pairs[0]) + pairs.skip(1) =~= all);
        inserted_all_appends(entries.push(pairs[0]), pairs.skip(1));
    }
}

/// A look-up of the name of an entry gives its value.
pub proof fn value_at(entries: Seq<TextPair>, i: int)
    requires
        names_distinct(entries),
        0 <= i < entries.len(),
    ensures
        value_of(entries, entries[i].0) == Some(entries[i].1),
{
    let name = entries[i].0;
    assert(has_name(entries, name));
    let j = choose|j: int| 0 <= j < entries.len() && #[trigger] entries[j].0 == name;
    assert(i == j);
}

/// Once `name` holds `value`, a look-up of `name` gives `value`, and a look-up of any
/// other name gives what it gave before.
pub proof fn insert_then_get(
    entries: Seq<TextPair>,
    name: Seq<char>,
    value: Seq<char>,
    other: Seq<char>,
)
    requires
        names_distinct(entries),
    ensures
        value_of(inserted(entries, name, value), other) == if other == name {
            Some(value)
        } else {
            value_of(entries, other)
        },
{
    let after = inserted(entries, name, value);
    lemma_inserted_distinct(entries, name, value);
    if other == name {
        let i = if has_name(entries, name) {
            choose|i: int| 0 <= i < entries.len() && #[trigger] entries[i].0 == name
        } else {
            entries.len() as int
        };
        assert(after[i] == (name, value));
        value_at(after, i);
    } else if has_name(entries, other) {
        let i = choose|i: int| 0 <= i < entries.len() && #[trigger] entries[i].0 == other;
        assert(after[i] == entries[i]);
        value_at(after, i);
        value_at(entries, i);
    } else if has_name(after, other) {
        let i = choose|i: int| 0 <= i < after.len() && #[trigger] after[i].0 == other;
        assert(entries[i].0 == other);
    }
}

/// Of the pairs inserted under one name, the last one counts.
pub proof fn last_insert_counts(
    entries: Seq<TextPair>,
    pairs: Seq<TextPair>,
    name: Seq<char>,
    i: int,
)
    requires
        names_distinct(entries),
        0 <= i < pairs.len(),
        pairs[i].0 == name,
        forall|j: int| i < j < pairs.len() ==> (#[trigger] pairs[j]).0 != name,
    ensures
        value_of(inserted_all(entries, pairs), name) == Some(pairs[i].1),
    decreases pairs.len(),
{
    let tail = pairs.skip(1);
    let next = inserted(entries, pairs[0].0, pairs[0].1);
    lemma_inserted_distinct(entries, pairs[0].0, pairs[0].1);
    assert forall|j: int| i - 1 < j < tail.len() implies (#[trigger] tail[j]).0 != name by {
        assert(tail[j] == pairs[j + 1]);
    }
    if i > 0 {
        last_insert_counts(next, tail, name, i - 1);
    } else {
        insert_then_get(entries, name, pairs[0].1, name);
        other_inserts_keep(next, tail, name);
    }
}

/// Pairs with other names leave a name as it was.
pub proof fn other_inserts_keep(entries: Seq<TextPair>, pairs: Seq<TextPair>, name: Seq<char>)
    requires
        names_distinct(entries),
        forall|j: int| 0 <= j < pairs.len() ==> (#[trigger] pairs[j]).0 != name,
    ensures
        value_of(inserted_all(entries, pairs), name) == value_of(entries, name),
    decreases pairs.len(),
{
    if pairs.len() > 0 {
        let tail = pairs.skip(1);
        assert(pairs[0].0 != name);
        assert forall|j: int| 0 <= j < tail.len() implies (#[trigger] tail[j]).0 != name by {
            assert(tail[j] == pairs[j + 1]);
        }
        lemma_inserted_distinct(entries, pairs[0].0, pairs[0].1);
        insert_then_get(entries, pairs[0].0, pairs[0].1, name);
        other_inserts_keep(inserted(entries, pairs[0].0, pairs[0].1), tail, name);
    }
}

/// A name that no entry has holds no value.
pub proof fn no_value(entries: Seq<TextPair>, name: Seq<char>)
    requires
        forall|j: int| 0 <= j < entries.len() ==> (#[trigger] entries[j]).0 != name,
    ensures
        value_of(entries, name) is None,
{
}

/// Where no name occurs twice, an entry's value is found under its name.
pub proof fn entry_found(entries: Seq<TextPair>, i: int)
    requires
        forall|j: int, k: int|
            #![trigger entries[j], entries[k]]
            0 <= j < entries.len() && 0 <= k < entries.len() && entries[j].0 == entries[k].0 ==> j
                == k,
        0 <= i < entries.len(),
    ensures
        value_of(entries, entries[i].0) == Some(entries[i].1),
{
    value_at(entries, i);
}

/// What comes of inserting pairs in turn holds, for every name, the value of the last pair
/// with the name, and no name twice.
pub proof fn pairs_by_name(pairs: Seq<TextPair>, name: Seq<char>)
    ensures
        forall|i: int|
            #![trigger pairs[i]]
            0 <= i < pairs.len() && pairs[i].0 == name && (forall|j: int|
                i < j < pairs.len() ==> (#[trigger] pairs[j]).0 != name) ==> value_of(
                inserted_all(Seq::empty(), pairs),
                name,
            ) == Some(pairs[i].1),
        (forall|j: int| 0 <= j < pairs.len() ==> (#[trigger] pairs[j]).0 != name) ==> value_of(
            inserted_all(Seq::empty(), pairs),
            name,
        ) is None,
        forall|j: int, k: int|
            0 <= j < k < inserted_all(Seq::empty(), pairs).len() ==> (#[trigger] inserted_all(
                Seq::empty(),
                pairs,
            )[j]).0 != (#[trigger] inserted_all(Seq::empty(), pairs)[k]).0,
{
    let none = Seq::<TextPair>::empty();
    inserted_all_distinct(none, pairs);
    if forall|j: int| 0 <= j < pairs.len() ==> (#[trigger] pairs[j]).0 != name {
        other_inserts_keep(none, pairs, name);
        no_value(none, name);
    }
    assert forall|i: int|
        #![trigger pairs[i]]
        0 <= i < pairs.len() && pairs[i].0 == name && (forall|j: int|
            i < j < pairs.len() ==> (#[trigger] pairs[j]).0 != name) implies value_of(
        inserted_all(none, pairs),
        name,
    ) == Some(pairs[i].1) by {
        last_insert_counts(none, pairs, name, i);
    }
}

/// Inserting pairs that fit the wire keeps entries that fit it.
pub proof fn lemma_inserted_all_fit(entries: Seq<TextPair>, pairs: Seq<TextPair>)
    requires
        wire::pairs_fit(entries),
        wire::pairs_fit(pairs),
    ensures
        wire::pairs_fit(inserted_all(entries, pairs)),
    decreases pairs.len(),
{
    if pairs.len() > 0 {
        let (name, value) = pairs[0];
        let next = inserted(entries, name, value);
        let tail = pairs.skip(1);
        assert forall|i: int| #![trigger next[i]] 0 <= i < next.len() implies wire::text_fits(
            next[i].0,
        ) && wire::text_fits(next[i].1) by {
            if i < entries.len() {
                assert(wire::text_fits(entries[i].0));
            }
        }
        assert forall|i: int| #![trigger tail[i]] 0 <= i < tail.len() implies wire::text_fits(
            tail[i].0,
        ) && wire::text_fits(tail[i].1) by {
            assert(tail[i] == pairs[i + 1]);
        }
        lemma_inserted_all_fit(next, tail);
    }
}

} // verus!
