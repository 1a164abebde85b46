//! Planning of collision-free renames for image / annotation datasets: images are numbered
//! in name order as `img_0001.jpg`, `img_0002.png`, ..., and each annotation file follows its
//! image as `img_0001.txt`, `img_0002.txt`, ...

pub mod cli;
pub mod index;
pub mod laws;
pub mod layout;
pub mod name;
pub mod order;
pub mod plan;
