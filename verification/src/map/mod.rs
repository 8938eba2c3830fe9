pub mod set_map;

pub use self::set_map::SetMap;
