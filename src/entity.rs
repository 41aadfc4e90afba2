use vstd::prelude::*;

use crate::error::PipelineError;
use crate::metadata::Metadata;
use crate::paths::{file_name, file_name_of, is_below, relative_path, relative_to, stays_below};

verus! {

/// One file held in memory while it flows through the pipeline.
#[derive(Debug, Clone)]
pub struct SimpleFile {
    /// The last component of the file's path.
    pub name: String,
    /// The whole content of the file, as text.
    pub content: String,
    /// The canonical absolute path of the file when it was read.
    pub abs_path: String,
    /// The path below the source root; it alone decides where the file is written.
    pub rel_path: String,
    /// Values that transforms pass to each other; never written to disk.
    pub metadata: Metadata,
}

/// What a `SimpleFile` holds, as mathematical values.
pub struct FileView {
    pub name: Seq<char>,
    pub content: Seq<char>,
    pub abs_path: Seq<char>,
    pub rel_path: Seq<char>,
    pub metadata: Map<Seq<char>, Seq<char>>,
}

impl View for SimpleFile {
    type V = FileView;

    open spec fn view(&self) -> FileView {
        FileView {
            name: self.name@,
            content: self.content@,
            abs_path: self.abs_path@,
            rel_path: self.rel_path@,
            metadata: self.metadata@,
        }
    }
}

/// A collection of files, seen as values.
pub open spec fn files_view(s: Seq<SimpleFile>) -> Seq<FileView> {
    s.map_values(|f: SimpleFile| f@)
}

impl SimpleFile {
    /// The entity for a file found at `path` while walking `root`, given the
    /// text read from it and its canonical path. Its relative path is `path`
    /// with the root taken off, and its metadata starts empty. A path that does
    /// not lie strictly below the root, or whose remainder would climb out of
    /// a tree it is joined to, is refused.
    pub fn from_walk(root: &str, path: &str, content: String, abs_path: String) -> (r: Result<
        SimpleFile,
        PipelineError,
    >)
        ensures
            match relative_to(root@, path@) {
                Some(rel) => if stays_below(rel) {
                    r matches Ok(f) && f.rel_path@ == rel && f.name@ == file_name_of(path@)
                        && f.content == content && f.abs_path == abs_path && f.metadata@ == Map::<
                        Seq<char>,
                        Seq<char>,
                    >::empty()
                } else {
                    r matches Err(PipelineError::PathConsistency { path: p }) && p@ == path@
                },
                None => r matches Err(PipelineError::PathConsistency { path: p }) && p@ == path@,
            },
    {
        match relative_path(root, path) {
            Some(rel) => {
                if !is_below(rel.as_str()) {
                    return Err(PipelineError::PathConsistency { path: path.to_owned() });
                }
                Ok(
                    SimpleFile {
                        name: file_name(path),
                        content,
                        abs_path,
                        rel_path: rel,
                        metadata: Metadata::new(),
                    },
                )
            },
            None => Err(PipelineError::PathConsistency { path: path.to_owned() }),
        }
    }
}

} // verus!
