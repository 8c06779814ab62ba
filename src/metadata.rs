//! Header records of the Litematica and WorldEdit formats.
use vstd::prelude::*;
use crate::model::BlockPos;
use crate::text::{triple_string, triple_text};

verus! {

/// The metadata compound of a Litematica file.
#[derive(Debug)]
pub struct LmMetadata {
    pub time_created: i64,
    pub time_modified: i64,
    pub description: String,
    pub region_count: i32,
    pub total_blocks: i32,
    pub author: String,
    pub total_volume: i32,
    pub enclosing_size: BlockPos,
    pub name: String,
}

/// The names of a Litematica file's regions, in the order read.
#[derive(Debug)]
pub struct RegionNameList {
    pub names: Vec<String>,
}

impl RegionNameList {
    pub fn new() -> (r: RegionNameList)
        ensures
            r.names@.len() == 0,
    {
        RegionNameList { names: Vec::new() }
    }

    /// Appends a region name.
    pub fn add(&mut self, region_name: String)
        ensures
            final(self).names@ == old(self).names@.push(region_name),
    {
        self.names.push(region_name);
    }
}

/// The metadata of a WorldEdit file.
#[derive(Debug)]
pub struct WeMetadata {
    pub we_offset_x: i64,
    pub we_offset_y: i64,
    pub we_offset_z: String,
    pub created_by: i32,
    pub author: i32,
    pub data: String,
    pub name: i32,
}

/// The extents stored in a WorldEdit file.
#[derive(Debug, Clone, Copy, PartialEq, Eq, Structural)]
pub struct WeSize {
    pub length: i32,
    pub width: i32,
    pub height: i32,
}

impl WeSize {
    /// `"width,height,length"` in decimal.
    pub fn to_string(&self) -> (r: String)
        ensures
            r@ == vstd::utf8::decode_utf8(triple_text(self.width as int, self.height as int, self.length as int)),
    {
        triple_string(self.width, self.height, self.length)
    }
}

/// The container version and the game data version of a WorldEdit file.
#[derive(Debug, Clone, Copy, PartialEq, Eq, Structural)]
pub struct WeVersion {
    pub version: i32,
    pub data_version: i32,
}

/// The paste offset of a WorldEdit file.
#[derive(Debug)]
pub struct WeOffset {
    pub offset: Vec<i32>,
}

} // verus!
