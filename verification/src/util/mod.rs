pub mod opt_around_num;
pub mod opt_color_when;
pub mod text;
