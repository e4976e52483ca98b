//! Local-network context: the outbound local address and its enclosing /24
//! prefix. The application discovers the local address through the platform
//! socket stack and hands the four octets to this module, which builds the
//! context; socket failures surface as the application's detection error and
//! never produce a context at all.

use vstd::prelude::*;

use crate::addr::{dec_seq, format_ip, format_prefix, ip_chars, prefix_chars};

verus! {

/// The detected local network: the machine's outbound IPv4 address and the
/// /24 subnet prefix enclosing it.
#[derive(Clone, Debug)]
pub struct NetworkInfo {
    pub local_ip: String,
    pub subnet: String,
}

/// A context is well formed when both fields are the dotted text of one and
/// the same address: the subnet is exactly the first three octets.
pub open spec fn network_info_wf(info: NetworkInfo, a: u8, b: u8, c: u8, d: u8) -> bool {
    &&& info.local_ip@ == ip_chars(a, b, c, d)
    &&& info.subnet@ == prefix_chars(a, b, c)
}

/// Build the network context for the local address `a.b.c.d`. Both fields
/// come from the same four octets, so the context is never partially
/// populated.
pub fn network_info_of(a: u8, b: u8, c: u8, d: u8) -> (info: NetworkInfo)
    ensures
        network_info_wf(info, a, b, c, d),
{
    NetworkInfo { local_ip: format_ip(a, b, c, d), subnet: format_prefix(a, b, c) }
}

/// The subnet prefix of a well-formed context is exactly the first three
/// dotted octets of its local address: the address text is the prefix text
/// followed by a dot and the host octet.
pub proof fn lemma_subnet_is_address_prefix(info: NetworkInfo, a: u8, b: u8, c: u8, d: u8)
    requires
        network_info_wf(info, a, b, c, d),
    ensures
        info.local_ip@ == info.subnet@ + seq!['.'] + dec_seq(d as nat),
        info.subnet@ == info.local_ip@.subrange(0, info.subnet@.len() as int),
{
    assert(info.subnet@ == info.local_ip@.subrange(0, info.subnet@.len() as int)) by {
        assert(info.local_ip@.subrange(0, info.subnet@.len() as int) =~= info.subnet@);
    }
}

} // verus!
