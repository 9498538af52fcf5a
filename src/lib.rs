//! Core of a document scanner front end: the text codecs for device option
//! values, the option editing model, frame normalisation, the scan session
//! state machine, the page selection ledger and the PDF page planner.
pub mod decimal;
pub mod fixed;
pub mod option;
pub mod normalize;
pub mod ledger;
pub mod pdf;
pub mod session;
pub mod commonvals;
