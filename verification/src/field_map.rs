use vstd::prelude::*;

verus! {

/// The value last given to key `k` among the pairs `ps`, if any.
pub open spec fn lookup(ps: Seq<(Seq<char>, Seq<char>)>, k: Seq<char>) -> Option<Seq<char>>
    decreases ps.len(),
{
    if ps.len() == 0 {
        None
    } else if ps.last().0 == k {
        Some(ps.last().1)
    } else {
        lookup(ps.drop_last(), k)
    }
}

/// A map from field names to field values, where inserting a key again
/// replaces its value.
pub struct FieldMap {
    entries: Vec<(String, String)>,
}

impl FieldMap {
    /// The pairs inserted so far, in order.
    pub closed spec fn pairs(&self) -> Seq<(Seq<char>, Seq<char>)> {
        self.entries@.map_values(|e: (String, String)| (e.0@, e.1@))
    }

    /// An empty map.
    pub fn new() -> (m: Self)
        ensures
            m.pairs() == Seq::<(Seq<char>, Seq<char>)>::empty(),
    {
        let m = FieldMap { entries: Vec::new() };
        assert(m.pairs() =~= Seq::<(Seq<char>, Seq<char>)>::empty());
        m
    }

    /// Gives `key` the value `value`.
    pub fn insert(&mut self, key: String, value: String)
        ensures
            final(self).pairs() == old(self).pairs().push((key@, value@)),
    {
        self.entries.push((key, value));
        assert(self.pairs() =~= old(self).pairs().push((key@, value@)));
    }

    /// The value of `key`, if it has one.
    pub fn get(&self, key: &str) -> (r: Option<&String>)
        ensures
            match lookup(self.pairs(), key@) {
                Some(v) => r matches Some(s) && s@ == v,
                None => r is None,
            },
    {
        let k = String::from_str(key);
        let ghost ps = self.pairs();
        let mut j = self.entries.len();
        assert(ps.take(j as int) =~= ps);
        while j > 0
            invariant
                j <= self.entries@.len(),
                ps == self.pairs(),
                k@ == key@,
                lookup(ps, key@) == lookup(ps.take(j as int), key@),
            decreases j,
        {
            let ghost pj = ps.take(j as int);
            assert(pj.last() == ps[j - 1]);
            assert(ps[j - 1] == (self.entries@[j - 1].0@, self.entries@[j - 1].1@));
            if self.entries[j - 1].0 == k {
                return Some(&self.entries[j - 1].1);
            }
            assert(pj.drop_last() =~= ps.take(j - 1));
            j = j - 1;
        }
        None
    }
}

} // verus!
