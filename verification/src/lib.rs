//! Kynoko Launcher's core: the catalogue, browsers and profiles, the
//! freedesktop.org text formats, settings and inventory, and the loopback
//! bridge's decisions, each with its contract.

pub mod text;
pub mod xdg;
pub mod browsers;
pub mod catalogue;
pub mod settings;
pub mod launcher;
pub mod bridge;
pub mod shortcuts;
pub mod macos;
pub mod linux;
pub mod assoc;
