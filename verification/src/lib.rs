//! Logic of a streaming PDF printer: page-range parsing, size and time
//! formatting, print history, the print-job state machine and the pixel and
//! device-mode preparation for the printer.

pub mod text;
pub mod calendar;
pub mod size;
pub mod pages;
mod page_set;
pub mod history;
pub mod print_job;
pub mod printer;
pub mod pdf;
