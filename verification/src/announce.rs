//! What is announced on the local network. The records carry public facts only:
//! never the token, never the PIN.

use vstd::prelude::*;
use vstd::string::*;
use crate::text::{cat, decimal, decimal_of};
use crate::util::{b64url, b64url_of};

verus! {

pub const SERVICE_TYPE: &'static str = "_multiplex-bind._tcp.local.";

/// What an announcement is made of.
pub struct AnnounceConfig {
    pub instance: String,
    pub port: u16,
    pub spub: [u8; 32],
    pub ssh_user: String,
    pub ssh_port: u16,
    pub first_fingerprint: Option<String>,
}

/// The text records of an announcement.
pub open spec fn records_of(config: AnnounceConfig) -> Seq<(Seq<char>, Seq<char>)> {
    let records = seq![
        ("v"@, "1"@),
        ("name"@, config.instance@),
        ("spub"@, b64url_of(config.spub@)),
        ("user"@, config.ssh_user@),
        ("sshport"@, decimal_of(config.ssh_port as nat)),
    ];
    match config.first_fingerprint {
        Some(fp) => records.push(("fp"@, fp@)),
        None => records,
    }
}

pub open spec fn record_views(list: Seq<(&'static str, String)>) -> Seq<(Seq<char>, Seq<char>)> {
    Seq::new(list.len(), |i: int| (list[i].0@, list[i].1@))
}

impl AnnounceConfig {
    /// The host name that is announced.
    pub fn host(&self) -> (r: String)
        ensures
            r@ == self.instance@ + ".local."@,
    {
        cat(self.instance.as_str(), ".local.")
    }

    /// The text records, keys and values.
    pub fn records(&self) -> (r: Vec<(&'static str, String)>)
        ensures
            record_views(r@) == records_of(*self),
    {
        let mut records: Vec<(&'static str, String)> = Vec::new();
        records.push(("v", "1".to_owned()));
        records.push(("name", self.instance.clone()));
        records.push(("spub", b64url(&self.spub)));
        records.push(("user", self.ssh_user.clone()));
        records.push(("sshport", decimal(self.ssh_port as u64)));
        if let Some(fp) = &self.first_fingerprint {
            records.push(("fp", fp.clone()));
        }
        assert(record_views(records@) =~= records_of(*self));
        records
    }
}

/// The records tell the protocol's version, the name, the session key, the user
/// and the port, each in full, and the first fingerprint if there is one.
pub proof fn records_tell_the_public_facts(config: AnnounceConfig)
    ensures
        ({
            let records = records_of(config);
            &&& records.len() == (if config.first_fingerprint is Some { 6int } else { 5int })
            &&& records[0] == ("v"@, "1"@)
            &&& records[1] == ("name"@, config.instance@)
            &&& records[2] == ("spub"@, b64url_of(config.spub@))
            &&& records[3] == ("user"@, config.ssh_user@)
            &&& records[4] == ("sshport"@, decimal_of(config.ssh_port as nat))
            &&& config.first_fingerprint matches Some(fp) ==> records[5] == ("fp"@, fp@)
        }),
{
}

/// A record is its key and its value.
pub proof fn records_are_keys_and_values(list: Seq<(&'static str, String)>, i: int)
    requires
        0 <= i < list.len(),
    ensures
        record_views(list).len() == list.len(),
        record_views(list)[i] == (list[i].0@, list[i].1@),
{
}

} // verus!
