//! Planning of a summer intensive-language programme: a calendar of days
//! with rotating faculty assignments, and per-week and per-day summaries.

pub mod date;
pub mod text;
pub mod group;
pub mod model;
pub mod plan;
pub mod summer;
pub mod report;
pub mod stats;

pub use date::{get_weekday, Date, Weekday};
pub use model::{make_faculty, Day, FacultyWeek, LgiClass, Params, Summer};
pub use stats::SgiDay;
pub use summer::{create_summer, try_create_summer, PlanError};
