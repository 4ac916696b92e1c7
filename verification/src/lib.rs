pub mod text;
pub mod partition;
pub mod diagram;
pub mod cell;
pub mod filling;

pub use partition::Partition;
pub use diagram::YoungDiagram;
pub use cell::{Cell, Content, Hook};
pub use filling::Filling;
pub mod tableau;
pub mod words;
pub use tableau::{YoungTableau, StandardYoungTableau};
pub mod enumeration;
pub use enumeration::enumerate_standard_tableaux;
pub mod skew;
pub use skew::{SkewShape, SemiStandardSkewTableau};
pub mod lr_rule;
pub mod strips;
pub mod lr_strips;
pub use lr_rule::{lr_coefficient, tensor_product_decompose};
pub mod render;
pub mod fraction;
pub mod dimension;
pub use fraction::Fraction;
pub use dimension::{su_dimension, count_standard_tableaux};
