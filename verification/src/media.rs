//! A scanned media file and how it is read from the metadata of a directory
//! entry.

use vstd::prelude::*;
use vstd::string::*;
use crate::names::{ImgRole, role, role_of, stem, file_stem, sidecar_name, sidecar_name_of};
use crate::text::{joined, join_path};
use crate::timestamp::{CaptureTime, parsed_time, tag_time_format, parse_capture_time};

verus! {

/// One media file of a scanned directory.
#[derive(Debug, Clone, PartialEq, Eq)]
pub struct ImgInfo {
    /// The directory that holds the file.
    pub dir: String,
    /// The file's name within `dir`.
    pub file_name: String,
    /// The name of the file's sidecar within `dir`, where it has one.
    pub sidecar_name: Option<String>,
    /// When the picture was taken.
    pub date: CaptureTime,
    /// The camera model; empty where the file names none.
    pub model: String,
}

/// Why a directory entry yields no media file.
#[derive(Debug, Clone, Copy, PartialEq, Eq, Structural)]
pub enum ReadError {
    /// The file carries no capture time.
    MissingTimestamp,
    /// The file's capture time cannot be read as a timestamp.
    UnparseableTimestamp,
}

/// A media file as plain text and numbers.
pub struct ImgInfoView {
    pub dir: Seq<char>,
    pub file_name: Seq<char>,
    pub sidecar_name: Option<Seq<char>>,
    pub date: CaptureTime,
    pub model: Seq<char>,
}

impl View for ImgInfo {
    type V = ImgInfoView;

    open spec fn view(&self) -> ImgInfoView {
        ImgInfoView {
            dir: self.dir@,
            file_name: self.file_name@,
            sidecar_name: match self.sidecar_name {
                Some(name) => Some(name@),
                None => None,
            },
            date: self.date,
            model: self.model@,
        }
    }
}

impl ImgInfo {
    /// The key under which files of one shot meet: directory and stem.
    pub open spec fn spec_base_path(self) -> Seq<char> {
        joined(self.dir@, stem(self.file_name@))
    }

    /// The role that the file's extension gives it.
    pub open spec fn spec_role(self) -> Option<ImgRole> {
        role_of(self.file_name@)
    }

    /// The file's path without its extension.
    pub fn base_path(&self) -> (r: String)
        ensures
            r@ == self.spec_base_path(),
    {
        let stem = file_stem(self.file_name.as_str());
        join_path(self.dir.as_str(), stem.as_str())
    }

    /// The file's role, by its extension.
    pub fn role(&self) -> (r: Option<ImgRole>)
        ensures
            r == self.spec_role(),
    {
        role(self.file_name.as_str())
    }
}

/// The text of an optional tag.
pub open spec fn tag_text(tag: Option<&str>) -> Option<Seq<char>> {
    match tag {
        Some(t) => Some(t@),
        None => None,
    }
}

/// What reading an entry comes to, given what its time tag parsed to:
/// without a time tag, or with one that did not parse, the entry is
/// refused; a missing model tag reads as an empty model; the sidecar is
/// named where it exists.
pub open spec fn read_result(
    dir: Seq<char>,
    file_name: Seq<char>,
    date_tag: Option<Seq<char>>,
    parsed: Option<CaptureTime>,
    model_tag: Option<Seq<char>>,
    sidecar_exists: bool,
) -> Result<ImgInfoView, ReadError> {
    match date_tag {
        None => Err(ReadError::MissingTimestamp),
        Some(_) => match parsed {
            None => Err(ReadError::UnparseableTimestamp),
            Some(date) => Ok(
                ImgInfoView {
                    dir,
                    file_name,
                    sidecar_name: if sidecar_exists {
                        Some(sidecar_name_of(file_name))
                    } else {
                        None
                    },
                    date,
                    model: match model_tag {
                        Some(m) => m,
                        None => Seq::empty(),
                    },
                },
            ),
        },
    }
}

/// What the time tag of an entry parses to; `None` without a tag.
pub open spec fn parsed_tag(date_tag: Option<Seq<char>>) -> Option<CaptureTime> {
    match date_tag {
        Some(t) => parsed_time(t, tag_time_format()),
        None => None,
    }
}

/// Whether `r` is the outcome `expected`, an image taken by its view.
pub open spec fn is_outcome(r: Result<ImgInfo, ReadError>, expected: Result<ImgInfoView, ReadError>) -> bool {
    match expected {
        Ok(v) => r.is_ok() && r.unwrap()@ == v,
        Err(e) => r == Err::<ImgInfo, ReadError>(e),
    }
}

/// The name of the sidecar of `file_name` where `sidecar_exists`.
pub fn find_sidecar_path(file_name: &str, sidecar_exists: bool) -> (r: Option<String>)
    ensures
        sidecar_exists ==> r.is_some() && r.unwrap()@ == sidecar_name_of(file_name@),
        !sidecar_exists ==> r.is_none(),
{
    if sidecar_exists {
        Some(sidecar_name(file_name))
    } else {
        None
    }
}

/// Makes the media file of an entry from its metadata, given what the time
/// tag was parsed to.
pub fn img_from_parsed(
    dir: &str,
    file_name: &str,
    date_tag: Option<&str>,
    parsed: Option<CaptureTime>,
    model_tag: Option<&str>,
    sidecar_exists: bool,
) -> (r: Result<ImgInfo, ReadError>)
    ensures
        is_outcome(r, read_result(dir@, file_name@, tag_text(date_tag), parsed, tag_text(model_tag), sidecar_exists)),
{
    if date_tag.is_none() {
        return Err(ReadError::MissingTimestamp);
    }
    match parsed {
        None => Err(ReadError::UnparseableTimestamp),
        Some(date) => {
            let model = match model_tag {
                Some(m) => String::from_str(m),
                None => String::new(),
            };
            Ok(
                ImgInfo {
                    dir: String::from_str(dir),
                    file_name: String::from_str(file_name),
                    sidecar_name: find_sidecar_path(file_name, sidecar_exists),
                    date,
                    model,
                },
            )
        },
    }
}

/// Makes the media file of a directory entry from the two metadata tags
/// read from it and from whether its sidecar exists.
pub fn read_img(dir: &str, file_name: &str, date_tag: Option<&str>, model_tag: Option<&str>, sidecar_exists: bool) -> (r:
    Result<ImgInfo, ReadError>)
    ensures
        is_outcome(
            r,
            read_result(
                dir@,
                file_name@,
                tag_text(date_tag),
                parsed_tag(tag_text(date_tag)),
                tag_text(model_tag),
                sidecar_exists,
            ),
        ),
{
    let parsed = match date_tag {
        Some(t) => parse_capture_time(t),
        None => None,
    };
    img_from_parsed(dir, file_name, date_tag, parsed, model_tag, sidecar_exists)
}

} // verus!
