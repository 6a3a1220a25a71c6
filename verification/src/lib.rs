pub mod entity;
pub mod geom;
pub mod inventory;
pub mod kinds;
pub mod spatial;
pub mod table;
pub mod trajectory;
pub mod world;
