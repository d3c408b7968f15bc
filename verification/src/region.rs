//! The region table: an immutable mapping from region-code prefixes to
//! display region suffixes, constructed once and passed by reference.

use vstd::prelude::*;

use crate::text::str_eq;

verus! {

/// First-match lookup in a sequence of key/value pairs.
pub open spec fn lookup(pairs: Seq<(Seq<char>, Seq<char>)>, key: Seq<char>) -> Option<Seq<char>>
    decreases pairs.len(),
{
    if pairs.len() == 0 {
        None
    } else if pairs[0].0 == key {
        Some(pairs[0].1)
    } else {
        lookup(pairs.drop_first(), key)
    }
}

/// A key matched by no pair is never answered: lookups for unknown prefixes
/// fail rather than defaulting.
pub proof fn lemma_lookup_unknown_fails(pairs: Seq<(Seq<char>, Seq<char>)>, key: Seq<char>)
    requires
        forall|i: int| 0 <= i < pairs.len() ==> (#[trigger] pairs[i]).0 != key,
    ensures
        lookup(pairs, key) is None,
    decreases pairs.len(),
{
    if pairs.len() > 0 {
        assert(forall|i: int|
            0 <= i < pairs.drop_first().len() ==> #[trigger] pairs.drop_first()[i] == pairs[i
                + 1]);
        lemma_lookup_unknown_fails(pairs.drop_first(), key);
    }
}

/// The fixed association of region-code prefixes with display regions.
pub open spec fn standard_pairs() -> Seq<(Seq<char>, Seq<char>)> {
    seq![
        ("SLUS"@, "(USA)"@),
        ("SCUS"@, "(USA)"@),
        ("LPS"@, "(USA)"@),
        ("SLES"@, "(Europe)"@),
        ("SCES"@, "(Europe)"@),
        ("SCED"@, "(Europe)"@),
        ("SLPS"@, "(Japan)"@),
        ("SCPS"@, "(Japan)"@),
        ("SIPS"@, "(Japan)"@),
        ("SLMS"@, "(Japan)"@),
        ("CPCS"@, "(Japan)"@),
        ("SCAJ"@, "(Japan)"@),
        ("ESPM"@, "(Japan)"@),
        ("SLKA"@, "(Japan)"@),
        ("HPS"@, "(Japan)"@),
    ]
}

/// The read-only table mapping region-code prefixes to display regions.
pub struct RegionTable {
    pairs: Vec<(String, String)>,
}

impl View for RegionTable {
    type V = Seq<(Seq<char>, Seq<char>)>;

    closed spec fn view(&self) -> Seq<(Seq<char>, Seq<char>)> {
        self.pairs@.map_values(|p: (String, String)| (p.0@, p.1@))
    }
}

impl RegionTable {
    /// Builds the standard table.
    pub fn new() -> (t: RegionTable)
        ensures
            t@ == standard_pairs(),
    {
        let mut pairs: Vec<(String, String)> = Vec::new();
        pairs.push((String::from_str("SLUS"), String::from_str("(USA)")));
        pairs.push((String::from_str("SCUS"), String::from_str("(USA)")));
        pairs.push((String::from_str("LPS"), String::from_str("(USA)")));
        pairs.push((String::from_str("SLES"), String::from_str("(Europe)")));
        pairs.push((String::from_str("SCES"), String::from_str("(Europe)")));
        pairs.push((String::from_str("SCED"), String::from_str("(Europe)")));
        pairs.push((String::from_str("SLPS"), String::from_str("(Japan)")));
        pairs.push((String::from_str("SCPS"), String::from_str("(Japan)")));
        pairs.push((String::from_str("SIPS"), String::from_str("(Japan)")));
        pairs.push((String::from_str("SLMS"), String::from_str("(Japan)")));
        pairs.push((String::from_str("CPCS"), String::from_str("(Japan)")));
        pairs.push((String::from_str("SCAJ"), String::from_str("(Japan)")));
        pairs.push((String::from_str("ESPM"), String::from_str("(Japan)")));
        pairs.push((String::from_str("SLKA"), String::from_str("(Japan)")));
        pairs.push((String::from_str("HPS"), String::from_str("(Japan)")));
        let t = RegionTable { pairs };
        proof {
            assert(t@ =~= standard_pairs());
        }
        t
    }

    /// Looks a prefix up; answers the display region of the first matching
    /// pair, and nothing for an unknown prefix.
    pub fn get(&self, prefix: &str) -> (r: Option<String>)
        ensures
            r matches Some(s) ==> lookup(self@, prefix@) == Some(s@),
            r is None ==> lookup(self@, prefix@) is None,
    {
        let n = self.pairs.len();
        let mut i: usize = 0;
        proof {
            assert(self@.skip(0) =~= self@);
        }
        while i < n
            invariant
                i <= n,
                n == self.pairs@.len(),
                self@.len() == n,
                lookup(self@, prefix@) == lookup(self@.skip(i as int), prefix@),
                forall|j: int| 0 <= j < n ==> #[trigger] self@[j] == (self.pairs@[j].0@, self.pairs@[j].1@),
            decreases n - i,
        {
            proof {
                assert(self@.skip(i as int)[0] == self@[i as int]);
            }
            if str_eq(self.pairs[i].0.as_str(), prefix) {
                let found = self.pairs[i].1.clone();
                return Some(found);
            }
            proof {
                assert(self@.skip(i as int).drop_first() =~= self@.skip(i + 1));
            }
            i += 1;
        }
        proof {
            assert(self@.skip(n as int).len() == 0);
        }
        None
    }
}

} // verus!
