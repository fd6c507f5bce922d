use vstd::prelude::*;

pub mod add_to_path;
pub mod env_file;
pub mod path_list;
pub mod text;
pub mod win_string;

verus! {

} // verus!
