//! The payload kinds a node can represent.

use vstd::prelude::*;

use crate::blob::{DataBlob, DataBlobView};

verus! {

/// A file payload: a name, an optional MIME type, and its blob reference.
#[derive(Debug)]
pub struct File {
    pub filename: String,
    pub mime_type: Option<String>,
    pub data_ref: DataBlob,
}

/// The mathematical content of a [`File`].
pub struct FileView {
    pub filename: Seq<char>,
    pub mime_type: Option<Seq<char>>,
    pub data_ref: DataBlobView,
}

impl View for File {
    type V = FileView;

    open spec fn view(&self) -> FileView {
        FileView {
            filename: self.filename@,
            mime_type: match self.mime_type {
                Some(m) => Some(m@),
                None => None,
            },
            data_ref: self.data_ref@,
        }
    }
}

impl File {
    /// Bundles the parts of a file payload.
    pub fn new(filename: String, mime_type: Option<String>, data_ref: DataBlob) -> (r: File)
        ensures
            r@ == (FileView {
                filename: filename@,
                mime_type: match mime_type {
                    Some(m) => Some(m@),
                    None => None,
                },
                data_ref: data_ref@,
            }),
    {
        File { filename, mime_type, data_ref }
    }

    /// The file's name.
    pub fn get_filename(&self) -> (r: &String)
        ensures
            r@ == self@.filename,
    {
        &self.filename
    }

    /// The file's MIME type, when one is known.
    pub fn get_mime_type(&self) -> (r: &Option<String>)
        ensures
            match r {
                Some(m) => self@.mime_type == Some(m@),
                None => self@.mime_type is None,
            },
    {
        &self.mime_type
    }

    /// The file's blob reference.
    pub fn get_data_ref(&self) -> (r: &DataBlob)
        ensures
            r@ == self@.data_ref,
    {
        &self.data_ref
    }
}

impl Clone for File {
    fn clone(&self) -> (r: Self)
        ensures
            r@ == self@,
    {
        File {
            filename: self.filename.clone(),
            mime_type: match &self.mime_type {
                Some(m) => Some(m.clone()),
                None => None,
            },
            data_ref: self.data_ref.clone(),
        }
    }
}

/// A bookmark payload: a blob reference and an optional title.
#[derive(Debug)]
pub struct Bookmark {
    pub data_ref: DataBlob,
    pub title: Option<String>,
}

/// The mathematical content of a [`Bookmark`].
pub struct BookmarkView {
    pub data_ref: DataBlobView,
    pub title: Option<Seq<char>>,
}

impl View for Bookmark {
    type V = BookmarkView;

    open spec fn view(&self) -> BookmarkView {
        BookmarkView {
            data_ref: self.data_ref@,
            title: match self.title {
                Some(t) => Some(t@),
                None => None,
            },
        }
    }
}

impl Bookmark {
    /// Bundles the parts of a bookmark payload.
    pub fn new(data_ref: DataBlob, title: Option<String>) -> (r: Bookmark)
        ensures
            r@ == (BookmarkView {
                data_ref: data_ref@,
                title: match title {
                    Some(t) => Some(t@),
                    None => None,
                },
            }),
    {
        Bookmark { data_ref, title }
    }

    /// The bookmark's blob reference.
    pub fn get_data_ref(&self) -> (r: &DataBlob)
        ensures
            r@ == self@.data_ref,
    {
        &self.data_ref
    }

    /// The bookmark's title, when one is set.
    pub fn get_title(&self) -> (r: &Option<String>)
        ensures
            match r {
                Some(t) => self@.title == Some(t@),
                None => self@.title is None,
            },
    {
        &self.title
    }
}

impl Clone for Bookmark {
    fn clone(&self) -> (r: Self)
        ensures
            r@ == self@,
    {
        Bookmark {
            data_ref: self.data_ref.clone(),
            title: match &self.title {
                Some(t) => Some(t.clone()),
                None => None,
            },
        }
    }
}

/// The kind of content a node represents.
#[derive(Debug)]
pub enum NodeType {
    File(File),
    Bookmark(Bookmark),
}

/// The mathematical content of a [`NodeType`].
pub enum NodeTypeView {
    File(FileView),
    Bookmark(BookmarkView),
}

impl View for NodeType {
    type V = NodeTypeView;

    open spec fn view(&self) -> NodeTypeView {
        match self {
            NodeType::File(f) => NodeTypeView::File(f@),
            NodeType::Bookmark(b) => NodeTypeView::Bookmark(b@),
        }
    }
}

impl Clone for NodeType {
    fn clone(&self) -> (r: Self)
        ensures
            r@ == self@,
    {
        match self {
            NodeType::File(f) => NodeType::File(f.clone()),
            NodeType::Bookmark(b) => NodeType::Bookmark(b.clone()),
        }
    }
}

} // verus!
