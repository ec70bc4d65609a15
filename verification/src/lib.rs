//! A recurring weekly schedule: payloads are registered at a weekday and a
//! time of day, and read back by ranges of the week that may run over its end.

pub mod clock;
pub mod round_trip;
pub mod utils;
pub mod week_schedule;

pub use utils::get_week_schedule_time_index;
pub use week_schedule::WeekSchedule;
