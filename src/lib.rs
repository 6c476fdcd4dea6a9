//! Integer core of a ray-marching batch renderer: how an image's rows are
//! split into worker bands, how a band's pixels become bytes, how the bands'
//! outputs are put back together, and the hit/miss state machine of one march.

pub mod march;
pub mod pixels;
pub mod plan;
