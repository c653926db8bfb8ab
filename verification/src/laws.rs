//! What holds of the library as a whole, beyond what each function says of
//! itself.

pub mod counters;
pub mod histograms;
pub mod listening;
pub mod scraping;
pub mod series;
