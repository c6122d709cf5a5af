//! Session history of browsing contexts and the origins of URLs.

pub mod frame;
pub mod ids;
pub mod origin;
pub mod pipeline;
pub mod servo_url;
