pub mod stackify_generic;
pub mod stackify;
pub mod layout;
pub mod reflection;
pub mod row_buffer;
pub mod lir;
pub mod pretty_print;
pub mod rng;
pub mod shuffle_iterator;
pub mod stackify_lir;
pub mod lifetime_ptr;
pub mod dyn_type;
pub mod mersenne_twister;
pub mod stackify_correctness;
pub mod dyn_ptr;
pub mod ffi_translate;
pub mod install;
pub mod mir_builder;
pub mod lir_interp;
