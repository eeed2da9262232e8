pub mod region;
pub mod scalar;
pub mod vec3;
pub mod ppm;
pub mod tiles;
pub mod bvh;
pub mod bvh_build;
pub mod bvh_query;
pub mod scene;
pub mod passes;
pub mod mesh;
pub mod texture;
