pub mod presenter;
pub mod to_img;
