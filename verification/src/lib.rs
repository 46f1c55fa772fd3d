//! Access negotiation for NPU accelerator devices.
//!
//! A caller describes a resource need — `N` single cores of a given
//! architecture, or a specific core range on a named device — as a
//! [`DeviceConfig`], either built programmatically or parsed from a compact
//! text form.  Given a point-in-time snapshot of devices and their per-core
//! occupancy, [`find_devices_in`] resolves the need to a concrete,
//! non-conflicting list of allocatable device files.
//!
//! The allocation computation is synchronous and pure: it never touches the
//! hardware and takes no locks.  Callers gather the snapshot (a filesystem
//! concern, outside this crate) and re-validate exclusivity when they actually
//! acquire the returned handles.

mod arch;
mod device;
mod error;
mod find;
mod parse;

pub use arch::Arch;
pub use device::{CoreStatus, Device, DeviceFile, DeviceMode, DeviceWithStatus};
pub use error::DeviceError;
pub use find::{find_devices_in, CoreId, DeviceConfig, WarboyConfigBuilder};
