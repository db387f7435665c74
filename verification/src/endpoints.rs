use vstd::prelude::*;

verus! {

/// The trigger endpoint's payload: the caller-visible fully qualified
/// domain name and the hostname to provision.
pub struct CloudInitRequest {
    pub fqdn: String,
    pub hostname: String,
}

/// A caller whose presented credential the user store recognised.
pub struct Auth {
    pub user_id: String,
}

/// The empty acknowledgment the trigger endpoint returns at once; the
/// pipeline itself runs on after the response has gone out.
pub struct Empty;

/// One registration as the inspection endpoint lists it.
pub struct Client {
    pub id: i32,
    pub ip: String,
    pub hostname: String,
}

/// The inspection endpoint's full answer.
pub struct RegisteredClientResponse {
    pub clients: Vec<Client>,
}

/// Wraps rows already read from the registry into the inspection answer,
/// one entry per row, order kept.
pub fn registered_clients(rows: Vec<Client>) -> (r: RegisteredClientResponse)
    ensures
        r.clients == rows,
{
    RegisteredClientResponse { clients: rows }
}

/// Selector for the DNS-provider collaborator of the configuration
/// surface; unused by the pipeline itself.
pub enum DnsApi {
    CloudFlare,
}

} // verus!
