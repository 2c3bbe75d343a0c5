//! A benchmark of uploads and downloads that are streamed in chunks.
//!
//! The matrix of cases is in [`config`], and what a run takes from it in [`selection`]. [`warmup`]
//! and [`run`] decide when a case has been warmed up and measured; [`request`] and [`source`] say
//! what one request sends and when it counts as a success. [`upload`], [`blocks`] and [`sealing`]
//! are the server's side: the body is cut into chunks, hashed and encrypted. [`metrics`] turns what
//! was measured into results, which [`report`], [`markdown`] and [`messages`] put into words.
//!
//! Latencies, rates and percentages are numbers in double precision. [`rounding`] says what
//! rounding to such a number is, [`binary64`] computes with them, [`order`] shows what order they
//! keep, [`elapsed`] and [`text`] apply them to time and to decimal text.
//!
//! What other crates do is stated in [`crypto`], [`histogram`] and [`comma`].
//!
//! What all of this comes to is proved beside it. [`promises`] says for each operation what its
//! result has to do with what it was given. [`worth`] holds numbers against real numbers, with which
//! [`accuracy`], [`percentiles`] and [`meaning`] say what a result tells of the bytes, the time and
//! the load that were measured. [`reading`] reads text back, with which [`summary`] and [`wording`]
//! say what the reports and the messages tell.
pub mod accuracy;
pub mod binary64;
pub mod blocks;
pub mod comma;
pub mod config;
pub mod crypto;
pub mod elapsed;
pub mod histogram;
pub mod markdown;
pub mod meaning;
pub mod messages;
pub mod metrics;
pub mod order;
pub mod percentiles;
pub mod promises;
pub mod reading;
pub mod report;
pub mod request;
pub mod rounding;
pub mod run;
pub mod sealing;
pub mod selection;
pub mod source;
pub mod summary;
pub mod text;
pub mod upload;
pub mod warmup;
pub mod wording;
pub mod worth;
