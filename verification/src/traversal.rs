pub mod axis;
pub mod boundary;
pub mod pixel;
