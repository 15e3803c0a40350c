//! Verified core of a driver that streams H.264 video to the LCD panel of a
//! Lian Li Galahad II cooler over USB.
//!
//! The modules hold the logic of the driver: how a video frame is cut into
//! the panel's USB packets, how decoded pictures are repacked and rotated,
//! how the streaming loop decides what to do next, how the panel is picked
//! among the USB devices, and how the service configuration line is built.

pub mod config;
pub mod demux;
pub mod device;
pub mod encode;
pub mod picture;
pub mod playback;
pub mod rotation;
pub mod text;
pub mod usb;
