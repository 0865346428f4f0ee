//! Errors of the device: of its initialization and of the life of its
//! buffers.

use vstd::prelude::*;
use vstd::string::StringExecFns;

verus! {

/// Why a device could not be had.
#[derive(Debug, Clone)]
pub enum GpuDeviceError {
    /// No compatible adapter was found.
    NoAdapter,
    /// The adapter refused the device request; the text says why.
    DeviceRequest(String),
    /// A feature that is needed is not supported; the text names it.
    UnsupportedFeature(String),
    /// A buffer could not be created; the text says why.
    BufferCreate(String),
    /// A buffer could not be mapped for reading; the text says why.
    BufferMap(String),
}

impl GpuDeviceError {
    /// The text of the error: a fixed sentence, followed by the detail
    /// that the kind carries, if it carries one.
    pub open spec fn message_spec(&self) -> Seq<char> {
        match self {
            GpuDeviceError::NoAdapter => "No compatible GPU adapter found"@,
            GpuDeviceError::DeviceRequest(why) => "Failed to request GPU device: "@ + why@,
            GpuDeviceError::UnsupportedFeature(what) => "GPU feature not supported: "@ + what@,
            GpuDeviceError::BufferCreate(why) => "Failed to create GPU buffer: "@ + why@,
            GpuDeviceError::BufferMap(why) => "Failed to map GPU buffer: "@ + why@,
        }
    }

    /// The text of the error.
    pub fn message(&self) -> (text: String)
        ensures
            text@ == self.message_spec(),
    {
        match self {
            GpuDeviceError::NoAdapter => String::from_str("No compatible GPU adapter found"),
            GpuDeviceError::DeviceRequest(why) => String::from_str(
                "Failed to request GPU device: ",
            ).concat(why.as_str()),
            GpuDeviceError::UnsupportedFeature(what) => String::from_str(
                "GPU feature not supported: ",
            ).concat(what.as_str()),
            GpuDeviceError::BufferCreate(why) => String::from_str(
                "Failed to create GPU buffer: ",
            ).concat(why.as_str()),
            GpuDeviceError::BufferMap(why) => String::from_str("Failed to map GPU buffer: ").concat(
                why.as_str(),
            ),
        }
    }
}

} // verus!
