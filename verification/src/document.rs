use vstd::prelude::*;

verus! {

/// A handle on one source file: it owns the source path; the surrounding
/// driver reads the file's content on demand.
pub struct Document {
    src_path: String,
}

impl Document {
    /// The path the document was made from.
    pub closed spec fn path_spec(&self) -> Seq<char> {
        self.src_path@
    }

    /// Make a document for a source path.
    pub fn new(src_path: &str) -> (r: Result<Document, String>)
        ensures
            r matches Ok(d) && d.path_spec() == src_path@,
    {
        Ok(Document { src_path: String::from_str(src_path) })
    }

    /// The owned source path, for the driver that reads the file.
    pub fn src_path(&self) -> (r: &String)
        ensures
            r@ == self.path_spec(),
    {
        &self.src_path
    }
}

} // verus!
