pub mod graph;

pub use self::graph::{
    DiStaticGraphConverter, StaticGraphConverter, TypedDiStaticGraphConverter,
    TypedStaticGraphConverter, TypedUnStaticGraphConverter, UnStaticGraphConverter,
};
