//! In-memory lookup tables used as test doubles for the factory's external
//! queriers: registered trading pairs and oracle price feeders. A table is a
//! registration log of plain string pairs; what it denotes is the map bound
//! by `map_of`, under which a later registration of a key overwrites an
//! earlier one. Answering encoded queries from the table is the surrounding
//! runtime's business.

use vstd::prelude::*;

verus! {

/// The map a registration table denotes: keys are bound left to right, so
/// the last registration of a key is the one that counts.
pub open spec fn map_of(pairs: Seq<(String, String)>) -> Map<Seq<char>, Seq<char>>
    decreases pairs.len(),
{
    if pairs.len() == 0 {
        Map::empty()
    } else {
        map_of(pairs.drop_last()).insert(pairs.last().0@, pairs.last().1@)
    }
}

/// Turns a list of key-value registrations into the stored pair table. The
/// table keeps the registrations in order; the map it denotes is unchanged,
/// with duplicate keys resolved in favour of the last registration.
pub fn pairs_to_map(pairs: Vec<(String, String)>) -> (r: Vec<(String, String)>)
    ensures
        r == pairs,
        map_of(r@) == map_of(pairs@),
{
    pairs
}

/// A test double for the trading-pair registry.
#[derive(Default, Debug)]
pub struct TerraswapFactoryQuerier {
    pub pairs: Vec<(String, String)>,
}

impl TerraswapFactoryQuerier {
    pub fn new(pairs: Vec<(String, String)>) -> (r: Self)
        ensures
            r.pairs == pairs,
            map_of(r.pairs@) == map_of(pairs@),
    {
        TerraswapFactoryQuerier { pairs: pairs_to_map(pairs) }
    }
}

/// A test double for the oracle feeder registry.
#[derive(Default, Debug)]
pub struct OracleQuerier {
    pub feeders: Vec<(String, String)>,
}

} // verus!
