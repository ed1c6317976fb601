pub mod arith_laws;
pub mod blur;
pub mod blend_laws;
pub mod box_laws;
pub mod canvas;
pub mod color_laws;
pub mod command;
pub mod command_laws;
pub mod controls;
pub mod decoration;
pub mod double;
pub mod fan_laws;
pub mod drawing_laws;
pub mod editing_laws;
pub mod editor;
pub mod export;
pub mod generator;
pub mod import;
pub mod json;
pub mod layout;
pub mod layout_laws;
pub mod model;
pub mod near_laws;
pub mod order;
pub mod palette;
pub mod palette_laws;
pub mod pattern_laws;
pub mod picture_laws;
pub mod pointer_laws;
pub mod preset_laws;
pub mod project;
pub mod render;
pub mod rng;
pub mod root;
pub mod rounding;
pub mod sameness;
pub mod shadow_cache;
pub mod shadow_laws;
pub mod snap;
pub mod template;
pub mod turn_laws;
pub mod wave_laws;
pub mod whole;
