//! The map description the renderer works from: a name, a spatial
//! reference, a geographic extent in degrees, and ordered styled layers.
//! Reading a map from its configuration file is an outside collaborator's
//! work; this module holds only the values the pipeline computes with.

use vstd::prelude::*;

use crate::bbox::Bbox;

verus! {

/// One styled layer: a name, a style reference, and the locator of its
/// vector data source.
pub struct Layer {
    pub name: String,
    pub style: String,
    pub source: String,
}

/// A map: its name, its rendering spatial reference, its declared
/// geographic extent in degrees, and its layers in paint order.
pub struct MapFile {
    pub name: String,
    pub srs: String,
    pub extent: Bbox,
    pub layers: Vec<Layer>,
}

impl MapFile {
    /// A map with no extent and no layers yet.
    pub fn new(name: String, srs: String) -> (r: MapFile)
        ensures
            r.name@ == name@,
            r.srs@ == srs@,
            r.extent == Bbox::empty_box(),
            r.layers@.len() == 0,
    {
        MapFile { name, srs, extent: Bbox::empty(), layers: Vec::new() }
    }
}

} // verus!
