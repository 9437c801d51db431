//! Pre-trade limits, divergence alerts and the kill switch.

pub mod dv01;
pub mod error;
pub mod kill_switch;
pub mod measures;
pub mod monitor;
pub mod pre_trade;
pub mod types;

pub use dv01::position_dv01;
pub use error::{RiskError, RiskViolation};
pub use kill_switch::{KillSwitch, KillSwitchState};
pub use monitor::{check_health_ratio_divergence, check_mark_rate_divergence};
pub use pre_trade::{check_pre_trade, exposure, Exposure};
pub use types::{DivergenceConfig, PreTradeLimits, RiskAlert};
