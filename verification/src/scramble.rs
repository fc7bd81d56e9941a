//! The four scrambles, each with its encryption and its decryption.

pub mod per_pixel_md5;
pub mod row_column_logistic;
pub mod row_logistic;
pub mod tomato;

pub use per_pixel_md5::{per_pixel_md5_decrypt, per_pixel_md5_encrypt};
pub use row_column_logistic::{row_column_logistic_decrypt, row_column_logistic_encrypt};
pub use row_logistic::{row_logistic_decrypt, row_logistic_encrypt};
pub use tomato::{tomato_scramble_decrypt, tomato_scramble_encrypt};
