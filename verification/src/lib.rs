//! Release tracking and install planning for a tray launcher of GitHub-published apps.

pub mod assets;
pub mod github;
pub mod text;
pub mod version;
pub mod order;
pub mod state;
pub mod apps;
pub mod notify;
pub mod probe;
pub mod progress;
