pub mod a_star;
pub mod bit;
pub mod custom_arc;
pub mod custom_vec;
pub mod kadane;
pub mod ring_buffer;
pub mod video_codec;
