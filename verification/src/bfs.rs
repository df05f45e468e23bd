pub mod bfs1;
pub mod bfs2;
pub mod checkpoint;
