//! The records that the containers of this crate store.

use vstd::prelude::*;
use vstd::std_specs::cmp::PartialEqSpecImpl;

verus! {

/// A device, found by its numerical id (in the trees) or by its path (in the trie).
#[derive(Debug)]
pub struct IoTDevice {
    pub numerical_id: u64,
    pub path: String,
    pub address: String,
}

impl IoTDevice {
    pub fn new(id: u64, address: String, path: String) -> (dev: IoTDevice)
        ensures
            dev.numerical_id == id,
            dev.address == address,
            dev.path == path,
    {
        IoTDevice { address: address, numerical_id: id, path: path }
    }
}

impl Clone for IoTDevice {
    fn clone(&self) -> (copy: IoTDevice)
        ensures
            copy == *self,
    {
        IoTDevice {
            numerical_id: self.numerical_id,
            path: self.path.clone(),
            address: self.address.clone(),
        }
    }
}

/// Two devices are the same device when id and address agree; the path is not compared.
impl PartialEq for IoTDevice {
    fn eq(&self, other: &IoTDevice) -> (same: bool) {
        self.numerical_id == other.numerical_id && self.address == other.address
    }
}

impl PartialEqSpecImpl for IoTDevice {
    open spec fn obeys_eq_spec() -> bool {
        true
    }

    open spec fn eq_spec(&self, other: &IoTDevice) -> bool {
        self.numerical_id == other.numerical_id && self.address@ == other.address@
    }
}

/// How many messages wait for a device.
#[derive(Debug)]
pub struct MessageNotification {
    pub no_messages: u64,
    pub device: IoTDevice,
}

impl MessageNotification {
    pub fn new(device: IoTDevice, no_messages: u64) -> (notification: MessageNotification)
        ensures
            notification.no_messages == no_messages,
            notification.device == device,
    {
        MessageNotification { no_messages: no_messages, device: device }
    }
}

impl Clone for MessageNotification {
    fn clone(&self) -> (copy: MessageNotification)
        ensures
            copy == *self,
    {
        MessageNotification { no_messages: self.no_messages, device: self.device.clone() }
    }
}

impl PartialEq for MessageNotification {
    fn eq(&self, other: &MessageNotification) -> (same: bool) {
        self.device.eq(&other.device) && self.no_messages == other.no_messages
    }
}

impl PartialEqSpecImpl for MessageNotification {
    open spec fn obeys_eq_spec() -> bool {
        true
    }

    open spec fn eq_spec(&self, other: &MessageNotification) -> bool {
        &&& self.device.numerical_id == other.device.numerical_id
        &&& self.device.address@ == other.device.address@
        &&& self.no_messages == other.no_messages
    }
}

} // verus!
