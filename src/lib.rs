pub mod doc;
pub mod index;
pub mod weight;

pub use crate::doc::{clean_token, split_space, tokenize};
pub use crate::index::{Hit, IdfEntry, Index, Part};
pub use crate::weight::{
    term_frequency, term_frequency_aug, term_frequency_bool, term_frequency_len, term_frequency_log, Ratio,
    WeightError,
};
