//! Verified core of the V2rayU/Xray control shell: parsing of what the system
//! tools print, the commands that read and change V2rayU's settings and
//! routing profiles, traffic classification and the local HTTP gateway's
//! bookkeeping.
pub mod text;
pub mod commands;
pub mod paths;
pub mod routing;
pub mod status;
pub mod traffic;
pub mod targets;
pub mod gateway;
pub mod laws;
