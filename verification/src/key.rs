//! The keys by which requests are told apart.

use crate::gcra::Quota;
use std::hash::Hash;
use vstd::prelude::*;

verus! {

/// Trait for user-provided keys used to identify rate limiter entries.
///
/// Keys should be uniquely identifiable to avoid rate limiting other users, e.g. using a user ID
/// or IP address.
pub trait Key<S>: Hash + Eq + Send + Sync + 'static {
    /// The quota for the key, defaulting to the global default quota if not set.
    fn quota(&self, _state: &S) -> (quota: Option<Quota>)
        default_ensures
            quota is None,
    {
        None
    }
}

impl<S> Key<S> for () {

}

/// The application's state, which keys can read their quotas from.
pub trait State: Clone + Send + Sync + 'static {

}

impl<S: Clone + Send + Sync + 'static> State for S {

}

/// How the type of a key compares with another type.
#[derive(Debug, Clone, Copy, PartialEq, Eq, Structural)]
pub struct TypeMatch {
    /// They are the same type.
    pub same: bool,
    /// One of them is the tuple of just the other, such as a key that is made of one part.
    pub tuple: bool,
    /// Values of both types have the same size.
    pub same_size: bool,
}

impl TypeMatch {
    /// See [`same_ty`].
    pub open spec fn holds(self) -> bool {
        self.same || (self.tuple && self.same_size)
    }
}

/// Whether a value of the other type can stand for a key: the types are the same, or one is the
/// tuple of the other with the same layout.
pub fn same_ty(facts: TypeMatch) -> (same: bool)
    ensures
        same == facts.holds(),
        same == (facts.same || (facts.tuple && facts.same_size)),
{
    facts.same || (facts.tuple && facts.same_size)
}

/// How the type of a key compares with the types that need no extractor.
#[derive(Debug, Clone, Copy, PartialEq, Eq, Structural)]
pub struct KeyTypes {
    /// With the unit type.
    pub unit: TypeMatch,
    /// With the client's IP address.
    pub real_ip: TypeMatch,
    /// With the client's IP address under its privacy mask.
    pub masked_ip: TypeMatch,
}

/// Where the key of a request comes from.
#[derive(Debug, PartialEq, Eq)]
pub enum UserKey<Ip> {
    /// The key is the unit value, or the tuple of just that.
    Unit,
    /// The key is this address, or the tuple of just that.
    RealIp(Ip),
    /// The key is this address under its privacy mask, or the tuple of just that.
    MaskedIp(Ip),
    /// The key has to be extracted from the request, which may reject it.
    Extract,
}

/// The address of a client: the one found in the request's extensions, else the one that the
/// rest of the request gives away.
pub open spec fn client_ip<Ip>(in_extensions: Option<Ip>, in_parts: Option<Ip>) -> Option<Ip> {
    if in_extensions is Some {
        in_extensions
    } else {
        in_parts
    }
}

/// Finds out where the key of a request comes from.
///
/// The unit key asks nothing of the request. A key that is an address is read off the request
/// if the address is known, and every other key is extracted.
pub fn get_user_key<Ip>(
    types: KeyTypes,
    in_extensions: Option<Ip>,
    in_parts: Option<Ip>,
) -> (key: UserKey<Ip>)
    ensures
        key == match client_ip(in_extensions, in_parts) {
            _ if types.unit.holds() => UserKey::Unit,
            Some(ip) if types.real_ip.holds() => UserKey::RealIp(ip),
            Some(ip) if types.masked_ip.holds() => UserKey::MaskedIp(ip),
            _ => UserKey::Extract,
        },
        ({
            let unit = types.unit.same || (types.unit.tuple && types.unit.same_size);
            let address = types.real_ip.same || (types.real_ip.tuple && types.real_ip.same_size);
            let masked = types.masked_ip.same || (types.masked_ip.tuple
                && types.masked_ip.same_size);
            &&& key is Unit <==> unit
            &&& key is RealIp <==> !unit && address && (in_extensions is Some || in_parts is Some)
            &&& key is MaskedIp <==> !unit && !address && masked && (in_extensions is Some
                || in_parts is Some)
        }),
        key matches UserKey::RealIp(ip) ==> in_extensions == Some(ip) || (in_extensions is None
            && in_parts == Some(ip)),
        key matches UserKey::MaskedIp(ip) ==> in_extensions == Some(ip) || (in_extensions is None
            && in_parts == Some(ip)),
{
    if same_ty(types.unit) {
        return UserKey::Unit;
    }
    let ip = match in_extensions {
        Some(ip) => Some(ip),
        None => in_parts,
    };
    match ip {
        Some(ip) => if same_ty(types.real_ip) {
            UserKey::RealIp(ip)
        } else if same_ty(types.masked_ip) {
            UserKey::MaskedIp(ip)
        } else {
            UserKey::Extract
        },
        None => UserKey::Extract,
    }
}

} // verus!
