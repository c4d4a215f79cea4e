//! Decision logic of a small CPU frequency daemon: reading the kernel's
//! text interfaces (`/proc/stat`, thermal zones, cpufreq policies),
//! turning what they hold into load and temperature levels, and shaping
//! the lines the daemon writes to its log.

pub mod text;
pub mod load;
pub mod temperature;
pub mod freq;
pub mod logger;
