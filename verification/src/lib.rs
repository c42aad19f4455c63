//! Voxel world logic of the Garbo engine: packed voxel colours, chunks with an
//! occupancy bitmap, a greedy mesher, chunk lifecycle management, terrain
//! generation and the input/update decisions of the game loop.

pub mod constants;
pub mod voxel;
pub mod chunk;
pub mod chunkmesher;
pub mod chunk_rendering;
pub mod chunk_manager;
pub mod input;
pub mod game_loop;
pub mod frame;
pub mod utils;
pub mod app_data;
pub mod metrics;
pub mod gui;
pub mod terrain_generator;
