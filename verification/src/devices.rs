//! Bound devices: the per-account device list, capped at five entries.

use vstd::prelude::*;

verus! {

/// Most devices that can be bound to one account.
pub const MAX_BOUND_DEVICES: usize = 5;

/// Mathematical model of a bound device.
#[verifier::ext_equal]
pub ghost struct DeviceModel {
    pub device_id: Seq<char>,
    pub device_name: Seq<char>,
    pub last_sync: int,
}

/// One bound device. `device_id` is stable per install.
pub struct DeviceInfo {
    pub device_id: String,
    pub device_name: String,
    pub last_sync: i64,
}

impl View for DeviceInfo {
    type V = DeviceModel;

    open spec fn view(&self) -> DeviceModel {
        DeviceModel {
            device_id: self.device_id@,
            device_name: self.device_name@,
            last_sync: self.last_sync as int,
        }
    }
}

impl DeviceInfo {
    /// An independent copy with the same fields.
    pub fn duplicate(&self) -> (copy: DeviceInfo)
        ensures
            copy@ == self@,
    {
        DeviceInfo {
            device_id: self.device_id.clone(),
            device_name: self.device_name.clone(),
            last_sync: self.last_sync,
        }
    }
}

/// Whether some entry of `s` carries `device_id`.
pub open spec fn contains_device_id(s: Seq<DeviceModel>, device_id: Seq<char>) -> bool {
    exists|k: int| 0 <= k < s.len() && s[k].device_id == device_id
}

/// No two entries of `s` share a device id.
pub open spec fn unique_device_ids(s: Seq<DeviceModel>) -> bool {
    forall|i: int, j: int| 0 <= i < j < s.len() ==> s[i].device_id != s[j].device_id
}

/// `s` with every entry carrying `device_id` removed, order preserved.
pub open spec fn remove_device_id(s: Seq<DeviceModel>, device_id: Seq<char>) -> Seq<DeviceModel>
    decreases s.len(),
{
    if s.len() == 0 {
        s
    } else if s[0].device_id == device_id {
        remove_device_id(s.drop_first(), device_id)
    } else {
        seq![s[0]] + remove_device_id(s.drop_first(), device_id)
    }
}

} // verus!
