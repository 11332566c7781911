//! Parameters of a query string or a form: names with one value each.
use vstd::hash_map::StringHashMap;
use vstd::prelude::*;

verus! {

/// The map that results from adding `pairs` one after the other: of two pairs with one name, the
/// later one stays.
pub open spec fn collected(pairs: Seq<(Seq<char>, Seq<char>)>) -> Map<Seq<char>, Seq<char>>
    decreases pairs.len(),
{
    if pairs.len() == 0 {
        Map::empty()
    } else {
        collected(pairs.drop_last()).insert(pairs.last().0, pairs.last().1)
    }
}

/// A pair of strings as a pair of character sequences.
pub open spec fn pair_view(pair: (String, String)) -> (Seq<char>, Seq<char>) {
    (pair.0@, pair.1@)
}

/// A list of string pairs as a sequence of pairs of character sequences.
pub open spec fn pairs_view(pairs: Seq<(String, String)>) -> Seq<(Seq<char>, Seq<char>)> {
    pairs.map_values(|pair: (String, String)| pair_view(pair))
}

/// Decoded parameters. Each name occurs once.
pub struct Params {
    entries: Vec<(String, String)>,
    index: StringHashMap<usize>,
}

impl View for Params {
    type V = Map<Seq<char>, Seq<char>>;

    closed spec fn view(&self) -> Map<Seq<char>, Seq<char>> {
        self.index@.map_values(|i: usize| self.entries@[i as int].1@)
    }
}

impl Params {
    #[verifier::type_invariant]
    spec fn well_formed(&self) -> bool {
        &&& forall|name: Seq<char>| #[trigger]
            self.index@.contains_key(name) ==> self.index@[name] < self.entries@.len()
                && self.entries@[self.index@[name] as int].0@ == name
        &&& forall|i: int|
            #![trigger self.entries@[i]]
            0 <= i < self.entries@.len() ==> self.index@.contains_key(self.entries@[i].0@)
                && self.index@[self.entries@[i].0@] == i
    }

    /// No parameters.
    pub fn new() -> (params: Params)
        ensures
            params@ == Map::<Seq<char>, Seq<char>>::empty(),
    {
        Params { entries: Vec::new(), index: StringHashMap::new() }
    }

    /// These parameters with `name` set to `value`.
    pub fn with(self, name: String, value: String) -> (params: Params)
        ensures
            params@ == self@.insert(name@, value@),
    {
        proof {
            use_type_invariant(&self);
        }
        let ghost before = self;
        let Params { mut entries, mut index } = self;
        match index.get(name.as_str()) {
            Some(place) => {
                let place: usize = *place;
                entries.set(place, (name, value));
            },
            None => {
                let place: usize = entries.len();
                index.insert(name.clone(), place);
                entries.push((name, value));
            },
        }
        let params = Params { entries, index };
        assert(params@ =~= before@.insert(name@, value@));
        params
    }

    /// The value of `name`, if it is set.
    pub fn get(&self, name: &str) -> (value: Option<&str>)
        ensures
            value is Some <==> self@.contains_key(name@),
            value matches Some(text) ==> text@ == self@[name@],
    {
        proof {
            use_type_invariant(self);
        }
        match self.index.get(name) {
            Some(place) => Some(self.entries[*place].1.as_str()),
            None => None,
        }
    }

    /// All names with their values.
    pub fn entries(&self) -> (entries: &Vec<(String, String)>)
        ensures
            forall|i: int|
                #![trigger entries@[i]]
                0 <= i < entries@.len() ==> self@.contains_key(entries@[i].0@)
                    && self@[entries@[i].0@] == entries@[i].1@,
            forall|name: Seq<char>| #[trigger]
                self@.contains_key(name) ==> exists|i: int|
                    0 <= i < entries@.len() && (#[trigger] entries@[i]).0@ == name,
            forall|i: int, j: int|
                0 <= i < j < entries@.len() ==> (#[trigger] entries@[i]).0@ != (
                #[trigger] entries@[j]).0@,
    {
        proof {
            use_type_invariant(self);
        }
        &self.entries
    }
}

/// The parameters that a list of decoded pairs sets, the last of each name.
pub fn collect_params(pairs: Vec<(String, String)>) -> (params: Params)
    ensures
        params@ == collected(pairs_view(pairs@)),
{
    let mut params = Params::new();
    let mut i: usize = 0;
    while i < pairs.len()
        invariant
            i <= pairs@.len(),
            params@ == collected(pairs_view(pairs@.take(i as int))),
        decreases pairs.len() - i,
    {
        params = params.with(pairs[i].0.clone(), pairs[i].1.clone());
        proof {
            let next = pairs_view(pairs@.take(i + 1));
            assert(next.drop_last() =~= pairs_view(pairs@.take(i as int)));
        }
        i += 1;
    }
    assert(pairs@.take(i as int) =~= pairs@);
    params
}

/// A name is set exactly if some pair has it, and the last pair that has it gives its value.
pub proof fn last_pair_of_a_name_counts(pairs: Seq<(Seq<char>, Seq<char>)>, name: Seq<char>)
    ensures
        collected(pairs).contains_key(name) <==> exists|i: int|
            0 <= i < pairs.len() && (#[trigger] pairs[i]).0 == name,
        forall|i: int|
            0 <= i < pairs.len() && (#[trigger] pairs[i]).0 == name && (forall|j: int|
                i < j < pairs.len() ==> (#[trigger] pairs[j]).0 != name) ==> collected(pairs)[name]
                == pairs[i].1,
    decreases pairs.len(),
{
    if pairs.len() > 0 {
        let head = pairs.drop_last();
        last_pair_of_a_name_counts(head, name);
        if pairs.last().0 != name {
            assert(forall|i: int|
                0 <= i < pairs.len() && (#[trigger] pairs[i]).0 == name ==> i < head.len()
                    && head[i].0 == name);
            assert(forall|i: int|
                0 <= i < head.len() && (#[trigger] head[i]).0 == name ==> pairs[i].0 == name);
        }
    }
}

} // verus!
