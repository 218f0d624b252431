pub mod config_and_state;
pub mod hud;
