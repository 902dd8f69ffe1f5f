//! Where the cluster controller runs, and how that choice is written
//! down in configuration.

use vstd::prelude::*;

use std::str::FromStr;
use std::convert::Infallible;

verus! {

/// The name a cluster gets when none is configured.
pub fn default_cluster_name() -> (r: String)
    ensures
        r@ == "local-cluster"@,
{
    let r = "local-cluster".to_owned();
    r
}

/// Where the cluster controller runs: inside this process, or on a
/// remote host reached at an address.
#[derive(Debug, PartialEq, Eq)]
pub enum ClusterControllerLocation {
    Local,
    Remote(String),
}

/// The configured controller endpoint; `Local` is written as the word
/// "local", anything else is a remote address.
#[derive(Debug, PartialEq, Eq)]
pub enum ClusterControllerEndpoint {
    Local,
    Remote(String),
}

/// Whether the characters spell "local" with any ASCII casing.
pub open spec fn is_local_keyword(s: Seq<char>) -> bool {
    &&& s.len() == 5
    &&& (s[0] == 'l' || s[0] == 'L')
    &&& (s[1] == 'o' || s[1] == 'O')
    &&& (s[2] == 'c' || s[2] == 'C')
    &&& (s[3] == 'a' || s[3] == 'A')
    &&& (s[4] == 'l' || s[4] == 'L')
}

fn matches_local_keyword(s: &str) -> (r: bool)
    ensures
        r == is_local_keyword(s@),
{
    if s.unicode_len() != 5 {
        return false;
    }
    let c0 = s.get_char(0);
    let c1 = s.get_char(1);
    let c2 = s.get_char(2);
    let c3 = s.get_char(3);
    let c4 = s.get_char(4);
    (c0 == 'l' || c0 == 'L') && (c1 == 'o' || c1 == 'O') && (c2 == 'c' || c2 == 'C') && (c3
        == 'a' || c3 == 'A') && (c4 == 'l' || c4 == 'L')
}

/// Parses a location: the word "local" (any ASCII casing) means this
/// process, anything else is a remote address, kept verbatim.
pub fn parse_controller_location(s: &str) -> (r: ClusterControllerLocation)
    ensures
        is_local_keyword(s@) ==> r == ClusterControllerLocation::Local,
        !is_local_keyword(s@) ==> (r matches ClusterControllerLocation::Remote(a) && a@ == s@),
{
    if matches_local_keyword(s) {
        ClusterControllerLocation::Local
    } else {
        ClusterControllerLocation::Remote(s.to_owned())
    }
}

/// Parses an endpoint by the same rule as a location.
pub fn parse_controller_endpoint(s: &str) -> (r: ClusterControllerEndpoint)
    ensures
        is_local_keyword(s@) ==> r == ClusterControllerEndpoint::Local,
        !is_local_keyword(s@) ==> (r matches ClusterControllerEndpoint::Remote(a) && a@ == s@),
{
    if matches_local_keyword(s) {
        ClusterControllerEndpoint::Local
    } else {
        ClusterControllerEndpoint::Remote(s.to_owned())
    }
}

impl ClusterControllerEndpoint {
    /// The location this endpoint names.
    pub fn into_location(self) -> (r: ClusterControllerLocation)
        ensures
            self is Local ==> r == ClusterControllerLocation::Local,
            self matches ClusterControllerEndpoint::Remote(a) ==> (
            r matches ClusterControllerLocation::Remote(b) && b == a),
    {
        match self {
            ClusterControllerEndpoint::Local => ClusterControllerLocation::Local,
            ClusterControllerEndpoint::Remote(address) => ClusterControllerLocation::Remote(
                address,
            ),
        }
    }
}

impl FromStr for ClusterControllerLocation {
    type Err = Infallible;

    fn from_str(s: &str) -> Result<Self, Self::Err> {
        Ok(parse_controller_location(s))
    }
}

} // verus!
