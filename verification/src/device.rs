//! Finding the panel among the USB devices and readying its interface.

use vstd::prelude::*;

verus! {

/// USB vendor id of the panel.
pub const VENDOR_ID: u16 = 0x0416;
/// USB product id of the panel.
pub const PRODUCT_ID: u16 = 0x7395;
/// Bulk OUT endpoint that takes the video packets.
pub const ENDPOINT_OUT: u8 = 0x02;
/// Interface that owns the video endpoint.
pub const INTERFACE_NUM: u8 = 1;
/// Time allowed for one bulk write, in milliseconds.
pub const WRITE_TIMEOUT_MS: u64 = 1000;

/// Outcome of the search for the panel among the devices on the bus.
#[derive(Clone, Copy, Debug, PartialEq, Eq, Structural)]
pub enum DeviceChoice {
    /// The device at this position has the ids looked for.
    Found(usize),
    /// The descriptor of the device at this position could not be read
    /// before any device matched; the search stops there.
    DescriptorFailed(usize),
    /// No device matched and every descriptor was read.
    NotFound,
}

/// Whether the device at position `i` has been looked at and passed over:
/// its descriptor was read and does not carry both ids.
pub open spec fn passed_over(ids: Seq<Option<(u16, u16)>>, i: int, vid: u16, pid: u16) -> bool {
    ids[i] is Some && ids[i] != Some((vid, pid))
}

/// Goes through the devices in bus order, each given by its (vendor id,
/// product id), or `None` where its descriptor could not be read, and
/// stops at the first that either has both ids looked for or has no
/// readable descriptor.
pub fn select_device(ids: &Vec<Option<(u16, u16)>>, vid: u16, pid: u16) -> (choice: DeviceChoice)
    ensures
        match choice {
            DeviceChoice::Found(i) => {
                &&& i < ids@.len()
                &&& ids@[i as int] == Some((vid, pid))
                &&& forall|j: int| 0 <= j < i ==> passed_over(ids@, j, vid, pid)
            },
            DeviceChoice::DescriptorFailed(i) => {
                &&& i < ids@.len()
                &&& ids@[i as int] is None
                &&& forall|j: int| 0 <= j < i ==> passed_over(ids@, j, vid, pid)
            },
            DeviceChoice::NotFound => forall|j: int|
                0 <= j < ids@.len() ==> passed_over(ids@, j, vid, pid),
        },
{
    let mut i: usize = 0;
    while i < ids.len()
        invariant
            i <= ids@.len(),
            forall|j: int| 0 <= j < i ==> passed_over(ids@, j, vid, pid),
        decreases ids@.len() - i,
    {
        match ids[i] {
            None => {
                return DeviceChoice::DescriptorFailed(i);
            },
            Some((v, p)) => {
                if v == vid && p == pid {
                    return DeviceChoice::Found(i);
                }
            },
        }
        i = i + 1;
    }
    DeviceChoice::NotFound
}

/// Whether the kernel driver has to be detached from the interface before
/// it is claimed: only when the query succeeded and said it is active.
pub fn needs_kernel_detach(active: Option<bool>) -> (detach: bool)
    ensures
        detach == (active == Some(true)),
{
    match active {
        Some(a) => a,
        None => false,
    }
}

} // verus!
