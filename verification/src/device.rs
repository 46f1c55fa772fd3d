//! The resource model: devices, their allocatable device files, and per-core
//! occupancy snapshots.
//!
//! A [`Device`] owns its [`DeviceFile`]s by value; a [`DeviceWithStatus`]
//! pairs a device with an immutable occupancy snapshot taken before an
//! allocation call.  Each type has a mathematical view over which the
//! allocation engine's contracts are stated.

use vstd::prelude::*;

use crate::arch::Arch;

verus! {

/// The granularity at which a device file claims cores: one core, a fused
/// pair, or the entire device as one unit.
#[derive(Clone, Copy, Debug, PartialEq, Eq, Structural)]
pub enum DeviceMode {
    Single,
    Fusion,
    MultiCore,
}

/// Occupancy of one core at snapshot time.
#[derive(Clone, Copy, Debug, PartialEq, Eq, Structural)]
pub enum CoreStatus {
    Available,
    Occupied,
}

/// An allocatable handle: a device file spanning one or more cores of its
/// device, with a fixed exclusivity mode.
#[derive(Debug)]
pub struct DeviceFile {
    /// Name of the device file, e.g. `npu0pe0` or `npu0pe0-1`.
    pub filename: String,
    /// Exclusivity mode, fixed at discovery time.
    pub mode: DeviceMode,
    /// The core indices the file spans, local to its device.
    pub core_indices: Vec<u8>,
    /// Whether the file stands for the whole device as one unit; allocating
    /// it reserves every core of the device.
    pub is_multicore: bool,
}

/// Mathematical view of a [`DeviceFile`].
#[verifier::ext_equal]
pub struct DeviceFileView {
    pub filename: Seq<char>,
    pub mode: DeviceMode,
    pub core_indices: Seq<u8>,
    pub is_multicore: bool,
}

impl DeviceFileView {
    /// A well-formed device file of a device owning `cores`: it spans at
    /// least one core, each of them a core of the device.
    pub open spec fn wf(self, cores: Seq<u8>) -> bool {
        &&& self.core_indices.len() > 0
        &&& forall|k: int|
            0 <= k < self.core_indices.len() ==> cores.contains(#[trigger] self.core_indices[k])
    }
}

impl View for DeviceFile {
    type V = DeviceFileView;

    open spec fn view(&self) -> DeviceFileView {
        DeviceFileView {
            filename: self.filename@,
            mode: self.mode,
            core_indices: self.core_indices@,
            is_multicore: self.is_multicore,
        }
    }
}

impl Clone for DeviceFile {
    fn clone(&self) -> (r: Self)
        ensures
            r@ == self@,
    {
        let r = DeviceFile {
            filename: self.filename.clone(),
            mode: self.mode,
            core_indices: self.core_indices.clone(),
            is_multicore: self.is_multicore,
        };
        proof {
            assert(r.core_indices@ =~= self.core_indices@);
            assert(r@ =~= self@);
        }
        r
    }
}

impl DeviceFile {
    /// Name of the device file.
    pub fn filename(&self) -> (r: &str)
        ensures
            r@ == self@.filename,
    {
        self.filename.as_str()
    }

    /// Exclusivity mode of the device file.
    pub fn mode(&self) -> (r: DeviceMode)
        ensures
            r == self@.mode,
    {
        self.mode
    }

    /// Core indices the file spans.
    pub fn core_indices(&self) -> (r: &Vec<u8>)
        ensures
            r@ == self@.core_indices,
    {
        &self.core_indices
    }

    /// Whether allocating the file reserves the entire device.
    pub fn is_multicore(&self) -> (r: bool)
        ensures
            r == self@.is_multicore,
    {
        self.is_multicore
    }
}

/// A physical accelerator: a stable index, an architecture, the cores it
/// owns, and the device files it exposes, in discovery order.
#[derive(Debug)]
pub struct Device {
    /// Index of the device, unique and stable for one process run.
    pub device_index: u8,
    /// Architecture of the device.
    pub arch: Arch,
    /// The core indices the device owns.
    pub cores: Vec<u8>,
    /// The device files the device exposes, in discovery order.
    pub dev_files: Vec<DeviceFile>,
}

/// Mathematical view of a [`Device`].
#[verifier::ext_equal]
pub struct DeviceView {
    pub device_index: u8,
    pub arch: Arch,
    pub cores: Seq<u8>,
    pub dev_files: Seq<DeviceFileView>,
}

impl DeviceView {
    /// A well-formed device: every device file it exposes is well formed
    /// against the device's own core set.
    pub open spec fn wf(self) -> bool {
        forall|j: int|
            0 <= j < self.dev_files.len() ==> (#[trigger] self.dev_files[j]).wf(self.cores)
    }
}

impl View for Device {
    type V = DeviceView;

    open spec fn view(&self) -> DeviceView {
        DeviceView {
            device_index: self.device_index,
            arch: self.arch,
            cores: self.cores@,
            dev_files: self.dev_files@.map_values(|f: DeviceFile| f@),
        }
    }
}

impl Device {
    /// Index of the device.
    pub fn device_index(&self) -> (r: u8)
        ensures
            r == self@.device_index,
    {
        self.device_index
    }

    /// Architecture of the device.
    pub fn arch(&self) -> (r: Arch)
        ensures
            r == self@.arch,
    {
        self.arch
    }

    /// The core indices the device owns.
    pub fn cores(&self) -> (r: &Vec<u8>)
        ensures
            r@ == self@.cores,
    {
        &self.cores
    }

    /// The device files the device exposes.
    pub fn dev_files(&self) -> (r: &Vec<DeviceFile>)
        ensures
            r@.map_values(|f: DeviceFile| f@) == self@.dev_files,
    {
        &self.dev_files
    }
}

/// A device paired with its per-core occupancy snapshot.  The snapshot maps
/// core indices to their status and is immutable for the duration of one
/// allocation call.
#[derive(Debug)]
pub struct DeviceWithStatus {
    /// The device the snapshot was taken of.
    pub device: Device,
    /// Pairs of core index and the core's status at snapshot time.
    pub statuses: Vec<(u8, CoreStatus)>,
}

/// Mathematical view of a [`DeviceWithStatus`].
#[verifier::ext_equal]
pub struct DeviceWithStatusView {
    pub device: DeviceView,
    pub statuses: Seq<(u8, CoreStatus)>,
}

impl DeviceWithStatusView {
    /// A well-formed snapshot of one device: the device is well formed, and
    /// the snapshot holds at most one status entry per core index — the
    /// shape of a mapping from core index to status.
    pub open spec fn wf(self) -> bool {
        &&& self.device.wf()
        &&& forall|k1: int, k2: int|
            0 <= k1 < k2 < self.statuses.len() ==> (#[trigger] self.statuses[k1]).0 != (
            #[trigger] self.statuses[k2]).0
    }
}

impl View for DeviceWithStatus {
    type V = DeviceWithStatusView;

    open spec fn view(&self) -> DeviceWithStatusView {
        DeviceWithStatusView { device: self.device@, statuses: self.statuses@ }
    }
}

} // verus!
