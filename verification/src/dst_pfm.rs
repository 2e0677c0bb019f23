use vstd::prelude::*;

use crate::svc_dsc::serdict::{clone_string, ServiceInfo};

verus! {

/// How a service runs: its group and name, where it listens, and whether it
/// registers with service discovery.
#[derive(Clone)]
pub struct ServiceConfig {
    pub service_group: String,
    pub service_name: String,
    pub host: String,
    pub port: u32,
    pub should_register: bool,
}

impl ServiceConfig {
    /// What the service registers with service discovery (and keeps
    /// registering as a heartbeat), if it registers at all.
    pub fn registration(&self) -> (r: Option<ServiceInfo>)
        ensures
            self.should_register ==> (r matches Some(info) && info@ == (
                self.service_group@,
                self.service_name@,
                self.host@,
                self.port,
            )),
            !self.should_register ==> r is None,
    {
        if !self.should_register {
            return None;
        }
        Some(
            ServiceInfo {
                group: clone_string(&self.service_group),
                name: clone_string(&self.service_name),
                ip: clone_string(&self.host),
                port: self.port,
            },
        )
    }

    /// The group and name the service deregisters on shutdown, if it
    /// registered.
    pub fn deregistration(&self) -> (r: Option<(String, String)>)
        ensures
            self.should_register ==> (r matches Some(id) && id.0@ == self.service_group@ && id.1@
                == self.service_name@),
            !self.should_register ==> r is None,
    {
        if self.should_register {
            Some((clone_string(&self.service_group), clone_string(&self.service_name)))
        } else {
            None
        }
    }
}

} // verus!
