pub mod feh;
