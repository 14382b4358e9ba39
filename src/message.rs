pub mod c2i;
pub mod i2c;
