//! Reads the `Files-Excluded` policy out of a Debian copyright file and
//! decides which archive paths it excludes.

pub mod text;
pub mod glob;
pub mod deb822;
