//! The files a flush names, relative to the prefix it writes under.

use vstd::prelude::*;

verus! {

/// Where a flush writes: the partition, the view's directory in it, and the segment's id.
#[derive(Clone, Debug, PartialEq, Eq)]
pub struct FlushTarget {
    pub partition: String,
    /// The view's path below its partition.
    pub view_rel: String,
    pub seg_id: String,
}

/// A file of the segment's directory.
pub open spec fn segment_file(target: FlushTarget, file: Seq<char>) -> Seq<char> {
    "partitions/"@ + target.partition@ + "/"@ + target.view_rel@ + "/segments/"@ + target.seg_id@
        + "/"@ + file
}

/// A declared column's directory.
pub open spec fn column_dir(partition: Seq<char>, column: Seq<char>) -> Seq<char> {
    "partitions/"@ + partition + "/attrs/"@ + column
}

/// A file of an extents directory.
pub open spec fn extent_file(dir: Seq<char>, seg_id: Seq<char>, suffix: Seq<char>) -> Seq<char> {
    dir + "/"@ + seg_id + suffix
}

impl FlushTarget {
    fn in_segment(&self, file: &str) -> (path: String)
        ensures
            path@ == segment_file(*self, file@),
    {
        String::from_str("partitions/").concat(self.partition.as_str()).concat("/").concat(
            self.view_rel.as_str(),
        ).concat("/segments/").concat(self.seg_id.as_str()).concat("/").concat(file)
    }

    /// The postings tier.
    pub fn tier_path(&self) -> (path: String)
        ensures
            path@ == segment_file(*self, "delta.arrow"@),
    {
        self.in_segment("delta.arrow")
    }

    /// The descriptors the dictionary grew by.
    pub fn dict_path(&self) -> (path: String)
        ensures
            path@ == segment_file(*self, "terms-0.dict"@),
    {
        self.in_segment("terms-0.dict")
    }

    /// A declared column's directory.
    pub fn column_path(&self, column: &String) -> (path: String)
        ensures
            path@ == column_dir(self.partition@, column@),
    {
        String::from_str("partitions/").concat(self.partition.as_str()).concat("/attrs/").concat(
            column.as_str(),
        )
    }

    fn in_extents(&self, dir: &String, suffix: &str) -> (path: String)
        ensures
            path@ == extent_file(dir@, self.seg_id@, suffix@),
    {
        dir.clone().concat("/").concat(self.seg_id.as_str()).concat(suffix)
    }

    /// The files of the terms each entity carries: which entities have a row, the rows' offsets,
    /// their terms and the offsets' bases.
    pub fn entity_terms_files(&self) -> (files: Vec<String>)
        ensures
            files@.len() == 4,
            ({
                let dir = "partitions/"@ + self.partition@ + "/entities/terms/extents"@;
                &&& files@[0]@ == extent_file(dir, self.seg_id@, ".hasrow.roaring"@)
                &&& files@[1]@ == extent_file(dir, self.seg_id@, ".offsets.u32"@)
                &&& files@[2]@ == extent_file(dir, self.seg_id@, ".terms.u32"@)
                &&& files@[3]@ == extent_file(dir, self.seg_id@, ".bases.u64"@)
            }),
    {
        let dir = String::from_str("partitions/").concat(self.partition.as_str()).concat(
            "/entities/terms/extents",
        );
        let mut files: Vec<String> = Vec::new();
        files.push(self.in_extents(&dir, ".hasrow.roaring"));
        files.push(self.in_extents(&dir, ".offsets.u32"));
        files.push(self.in_extents(&dir, ".terms.u32"));
        files.push(self.in_extents(&dir, ".bases.u64"));
        files
    }

    /// The files of the record extent: its blocks, which entities have a row, and its directory.
    pub fn record_files(&self) -> (files: Vec<String>)
        ensures
            files@.len() == 3,
            ({
                let dir = "partitions/"@ + self.partition@ + "/attrs/record/extents"@;
                &&& files@[0]@ == extent_file(dir, self.seg_id@, ".blocks.bin"@)
                &&& files@[1]@ == extent_file(dir, self.seg_id@, ".hasrow.roaring"@)
                &&& files@[2]@ == extent_file(dir, self.seg_id@, ".directory.arrow"@)
            }),
    {
        let dir = String::from_str("partitions/").concat(self.partition.as_str()).concat(
            "/attrs/record/extents",
        );
        let mut files: Vec<String> = Vec::new();
        files.push(self.in_extents(&dir, ".blocks.bin"));
        files.push(self.in_extents(&dir, ".hasrow.roaring"));
        files.push(self.in_extents(&dir, ".directory.arrow"));
        files
    }

    /// The directory of a declared text column's layers.
    pub fn text_dir(&self, column: &String) -> (dir: String)
        ensures
            dir@ == column_dir(self.partition@, column@) + "/extents"@,
    {
        self.column_path(column).concat("/extents")
    }

    /// The files of a text layer: its terms, their postings and its presence.
    pub fn text_files(&self, dir: &String) -> (files: Vec<String>)
        ensures
            files@.len() == 3,
            files@[0]@ == extent_file(dir@, self.seg_id@, "-dict.bin"@),
            files@[1]@ == extent_file(dir@, self.seg_id@, "-postings.arrow"@),
            files@[2]@ == extent_file(dir@, self.seg_id@, "-presence.roaring"@),
    {
        let mut files: Vec<String> = Vec::new();
        files.push(self.in_extents(dir, "-dict.bin"));
        files.push(self.in_extents(dir, "-postings.arrow"));
        files.push(self.in_extents(dir, "-presence.roaring"));
        files
    }
}

} // verus!
