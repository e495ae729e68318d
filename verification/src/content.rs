//! What the keeper of a mount answers when it is asked for the content at a
//! path: of which kind the content is, and with which status a request fails.

use vstd::prelude::*;
use vstd::string::{StrSliceExecFns, StringExecFns};
use crate::text::names_equal;

verus! {

/// What a request for content asks beside the path.
#[derive(Debug, Clone, Copy, PartialEq, Eq)]
pub struct GetContentQuery {
    /// Whether markdown is to be shown as a page.
    pub html: Option<bool>,
    /// Whether an image is to be made small.
    pub thumbnail: Option<bool>,
}

/// Why a request for content fails.
#[derive(Debug, Clone, Copy, PartialEq, Eq, Structural)]
pub enum GetContentError {
    /// The keeper cannot read its records.
    Database,
    /// The keeper's record of the root is no root.
    RootCid,
    /// The keeper knows no root.
    RootNotFound,
    /// Nothing stands at the path.
    NotFound,
    /// The mount refuses.
    Mount,
    /// An image cannot be made small.
    ImageProcessing,
    /// An image is of a kind that cannot be made small.
    UnsupportedImageFormat,
    /// The request took too long.
    Timeout,
}

/// The status that answers a request that fails.
pub open spec fn failure_status(e: GetContentError) -> u16 {
    match e {
        GetContentError::Mount | GetContentError::RootCid | GetContentError::Database | GetContentError::ImageProcessing => 500,
        GetContentError::RootNotFound | GetContentError::NotFound => 404,
        GetContentError::UnsupportedImageFormat => 415,
        GetContentError::Timeout => 408,
    }
}

impl GetContentError {
    /// The status that answers the request.
    pub fn status(&self) -> (r: u16)
        ensures
            r == failure_status(*self),
    {
        match self {
            GetContentError::Mount | GetContentError::RootCid | GetContentError::Database | GetContentError::ImageProcessing => 500,
            GetContentError::RootNotFound | GetContentError::NotFound => 404,
            GetContentError::UnsupportedImageFormat => 415,
            GetContentError::Timeout => 408,
        }
    }

    /// The words that answer the request.
    pub fn message(&self) -> (r: &'static str)
        ensures
            r@ == (match failure_status(*self) {
                500 => "Internal server error"@,
                404 => "Not found"@,
                415 => "Unsupported image format"@,
                _ => "Request timed out"@,
            }),
    {
        match self {
            GetContentError::Mount | GetContentError::RootCid | GetContentError::Database | GetContentError::ImageProcessing => "Internal server error",
            GetContentError::RootNotFound | GetContentError::NotFound => "Not found",
            GetContentError::UnsupportedImageFormat => "Unsupported image format",
            GetContentError::Timeout => "Request timed out",
        }
    }
}

/// Whether an ending names an image.
pub open spec fn is_image_ending(ending: Seq<char>) -> bool {
    ending == "png"@ || ending == "jpg"@ || ending == "jpeg"@ || ending == "gif"@
}

/// The kind of the content of a file with the ending `ending`, as it is
/// answered: markdown as a page where that is asked for, else as plain text;
/// an image as an image of its ending; all else as bytes.
pub open spec fn content_type_spec(ending: Seq<char>, html: bool) -> Seq<char> {
    if ending == "md"@ {
        if html {
            "text/html"@
        } else {
            "text/plain"@
        }
    } else if is_image_ending(ending) {
        "image/"@ + ending
    } else {
        "application/octet-stream"@
    }
}

/// The kind of the content of a file with the ending `ending`.
pub fn content_type(ending: &str, html: bool) -> (r: String)
    ensures
        r@ == content_type_spec(ending@, html),
{
    if names_equal(ending, "md") {
        if html {
            "text/html".to_string()
        } else {
            "text/plain".to_string()
        }
    } else if names_equal(ending, "png") || names_equal(ending, "jpg") || names_equal(ending, "jpeg")
        || names_equal(ending, "gif") {
        let mut out = "image/".to_string();
        out.append(ending);
        out
    } else {
        "application/octet-stream".to_string()
    }
}

/// Whether an image of the ending `ending` is made small where that is asked
/// for: every image but a moving one.
pub fn makes_thumbnail(ending: &str, query: &GetContentQuery) -> (r: bool)
    ensures
        r == (query.thumbnail == Some(true) && is_image_ending(ending@) && ending@ != "gif"@),
{
    let asked = match query.thumbnail {
        Some(b) => b,
        None => false,
    };
    asked && (names_equal(ending, "png") || names_equal(ending, "jpg") || names_equal(ending, "jpeg"))
        && !names_equal(ending, "gif")
}

/// The place of the last dot of a name among its first `upto` characters, or
/// -1 where there is none.
pub open spec fn last_dot(name: Seq<char>, upto: int) -> int
    decreases upto,
{
    if upto <= 0 {
        -1
    } else if name[upto - 1] == '.' {
        upto - 1
    } else {
        last_dot(name, upto - 1)
    }
}

/// The ending of a file's name: what follows its last dot, or nothing where
/// the name has no dot, or none but at its start.
pub open spec fn ending_of(name: Seq<char>) -> Seq<char> {
    let dot = last_dot(name, name.len() as int);
    if dot <= 0 {
        Seq::empty()
    } else {
        name.skip(dot + 1)
    }
}

/// The ending of a file's name.
pub fn extension(name: &str) -> (r: String)
    ensures
        r@ == ending_of(name@),
{
    let n = name.unicode_len();
    let mut i: usize = n;
    while i > 0
        invariant
            i <= n,
            n == name@.len(),
            last_dot(name@, n as int) == last_dot(name@, i as int),
        decreases i,
    {
        if name.get_char(i - 1) == '.' {
            if i - 1 == 0 {
                return String::new();
            }
            let ending = name.substring_char(i, n);
            proof {
                assert(name@.subrange(i as int, n as int) =~= name@.skip(i as int));
            }
            return ending.to_string();
        }
        i = i - 1;
    }
    String::new()
}

/// The first `count` names of a path without the steps back and the steps
/// that stay: each `..` takes the name before it away, if there is one, and
/// each `.` is left out.
pub open spec fn normalized(names: Seq<Seq<char>>, count: int) -> Seq<Seq<char>>
    decreases count,
{
    if count <= 0 {
        Seq::empty()
    } else {
        let before = normalized(names, count - 1);
        if names[count - 1] == ".."@ {
            if before.len() > 0 {
                before.drop_last()
            } else {
                before
            }
        } else if names[count - 1] == "."@ {
            before
        } else {
            before.push(names[count - 1])
        }
    }
}

/// The names of a path without the steps back and the steps that stay.
pub fn normalize_path(names: &Vec<String>) -> (r: Vec<String>)
    ensures
        crate::path::names_view(r@) == normalized(crate::path::names_view(names@), names@.len() as int),
{
    let ghost all = crate::path::names_view(names@);
    let n = names.len();
    let mut out: Vec<String> = Vec::new();
    let mut i: usize = 0;
    proof {
        assert(crate::path::names_view(out@) =~= Seq::<Seq<char>>::empty());
    }
    while i < n
        invariant
            i <= n,
            n == names@.len(),
            all == crate::path::names_view(names@),
            crate::path::names_view(out@) == normalized(all, i as int),
        decreases n - i,
    {
        let ghost before = crate::path::names_view(out@);
        if names_equal(names[i].as_str(), "..") {
            if out.len() > 0 {
                out.pop();
                proof {
                    assert(crate::path::names_view(out@) =~= before.drop_last());
                }
            }
        } else if !names_equal(names[i].as_str(), ".") {
            out.push(names[i].clone());
            proof {
                assert(crate::path::names_view(out@) =~= before.push(all[i as int]));
            }
        }
        i = i + 1;
    }
    out
}

} // verus!
