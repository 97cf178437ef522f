//! Where the social-network data sets live, and the records read from them.

use vstd::prelude::*;

verus! {

/// The data directory the experiments read from.
pub fn cur_data_home() -> (r: &'static str)
    ensures
        r@ == home_data_home_path(),
{
    home_data_home()
}

/// The data directory on the university machines.
pub fn uni_data_home() -> (r: &'static str)
    ensures
        r@ == "/homes/rrm115/Data"@,
{
    "/homes/rrm115/Data"
}

/// The data directory at home.
pub fn home_data_home() -> (r: &'static str)
    ensures
        r@ == home_data_home_path(),
{
    "/home/rob/S3G2/ldbc_snb_datagen"
}

/// The path `home_data_home` returns.
pub open spec fn home_data_home_path() -> Seq<char> {
    "/home/rob/S3G2/ldbc_snb_datagen"@
}

/// The directory of the scale-factor-1 social network.
pub fn social_network_sf1() -> (r: String)
    ensures
        r@ == home_data_home_path() + "/social_network_sf1"@,
{
    String::from_str(cur_data_home()).concat("/social_network_sf1")
}

/// The directory of the scale-factor-10 social network.
pub fn social_network_sf10() -> (r: String)
    ensures
        r@ == home_data_home_path() + "/social_network_sf10"@,
{
    String::from_str(cur_data_home()).concat("/social_network_sf10")
}

/// The file of people in a social network directory.
pub fn nodes(social_network: String) -> (r: String)
    ensures
        r@ == social_network@ + "/person_0_0.csv"@,
{
    social_network.concat("/person_0_0.csv")
}

/// The file of friendships in a social network directory.
pub fn edges(social_network: String) -> (r: String)
    ensures
        r@ == social_network@ + "/person_knows_person_0_0.csv"@,
{
    social_network.concat("/person_knows_person_0_0.csv")
}

/// A person of the social network.
#[derive(Debug)]
pub struct Person {
    pub id: i64,
    pub first_name: String,
    pub last_name: String,
}

/// A friendship between two people, by their ids.
pub struct Friendship {
    pub p1id: i64,
    pub p2id: i64,
}

/// The friendships as two adjacency vectors: the first and the second person of each, in order.
pub fn adjacency_vectors(friendships: &[Friendship]) -> (r: (Vec<i64>, Vec<i64>))
    ensures
        r.0@.len() == friendships@.len(),
        r.1@.len() == friendships@.len(),
        forall|i: int| 0 <= i < friendships@.len() ==> r.0@[i] == (#[trigger] friendships@[i]).p1id && r.1@[i] == friendships@[i].p2id,
{
    let mut src: Vec<i64> = Vec::new();
    let mut dst: Vec<i64> = Vec::new();
    let mut i: usize = 0;
    while i < friendships.len()
        invariant
            i <= friendships@.len(),
            src@.len() == i,
            dst@.len() == i,
            forall|k: int| 0 <= k < i ==> src@[k] == (#[trigger] friendships@[k]).p1id && dst@[k] == friendships@[k].p2id,
        decreases friendships@.len() - i,
    {
        src.push(friendships[i].p1id);
        dst.push(friendships[i].p2id);
        i += 1;
    }
    (src, dst)
}

} // verus!
