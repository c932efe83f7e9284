pub mod handle;
pub mod resolver;
pub mod scheduler;
pub mod entity;
pub mod component;
pub mod input;
pub mod scene;
pub mod text;
pub mod scene_layout;
pub mod menu;
pub mod game;
