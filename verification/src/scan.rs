//! Scanning a directory: which entries are looked at, and what becomes of
//! the metadata read from them.

use vstd::prelude::*;
use vstd::string::*;
use crate::media::{ImgInfo, ImgInfoView, ReadError, read_img, read_result, parsed_tag, tag_text};
use crate::names::{is_skipped, is_skipped_entry};

verus! {

/// A direct child of the scanned directory.
#[derive(Debug, Clone, PartialEq, Eq)]
pub struct DirEntry {
    /// The entry's name.
    pub file_name: String,
    /// Whether the entry is a directory; `None` where that cannot be told.
    pub is_dir: Option<bool>,
}

/// What was read from one candidate file.
#[derive(Debug, Clone, PartialEq, Eq)]
pub struct Reading {
    /// The file's name.
    pub file_name: String,
    /// The text of the capture-time tag, where the file has one.
    pub date_tag: Option<String>,
    /// The text of the camera-model tag, where the file has one.
    pub model_tag: Option<String>,
    /// Whether the file's sidecar exists.
    pub sidecar_exists: bool,
}

/// A file that a scan left out, and why.
#[derive(Debug, Clone, PartialEq, Eq)]
pub struct Skipped {
    pub file_name: String,
    pub reason: ReadError,
}

/// The outcome of a scan.
#[derive(Debug, Clone, PartialEq, Eq)]
pub struct Scan {
    /// The media files, in the order of the readings.
    pub imgs: Vec<ImgInfo>,
    /// The files left out, in the order of the readings: one warning each.
    pub skipped: Vec<Skipped>,
}

/// The text of an optional string.
pub open spec fn text_of(s: Option<String>) -> Option<Seq<char>> {
    match s {
        Some(t) => Some(t@),
        None => None,
    }
}

/// The names of the entries that a scan looks at, in their order.
pub open spec fn candidate_names(entries: Seq<DirEntry>) -> Seq<Seq<char>>
    decreases entries.len(),
{
    if entries.len() == 0 {
        Seq::empty()
    } else {
        let front = candidate_names(entries.drop_last());
        if is_skipped_entry(entries.last().file_name@, entries.last().is_dir) {
            front
        } else {
            front.push(entries.last().file_name@)
        }
    }
}

/// What reading `reading` in the directory `dir` comes to.
pub open spec fn reading_result(dir: Seq<char>, reading: Reading) -> Result<ImgInfoView, ReadError> {
    read_result(
        dir,
        reading.file_name@,
        text_of(reading.date_tag),
        parsed_tag(text_of(reading.date_tag)),
        text_of(reading.model_tag),
        reading.sidecar_exists,
    )
}

/// The media files that the readings give, in their order.
pub open spec fn scanned_imgs(dir: Seq<char>, readings: Seq<Reading>) -> Seq<ImgInfoView>
    decreases readings.len(),
{
    if readings.len() == 0 {
        Seq::empty()
    } else {
        let front = scanned_imgs(dir, readings.drop_last());
        match reading_result(dir, readings.last()) {
            Ok(img) => front.push(img),
            Err(_) => front,
        }
    }
}

/// The files that the readings leave out, each with its reason, in their
/// order.
pub open spec fn scanned_skips(dir: Seq<char>, readings: Seq<Reading>) -> Seq<(Seq<char>, ReadError)>
    decreases readings.len(),
{
    if readings.len() == 0 {
        Seq::empty()
    } else {
        let front = scanned_skips(dir, readings.drop_last());
        match reading_result(dir, readings.last()) {
            Ok(_) => front,
            Err(e) => front.push((readings.last().file_name@, e)),
        }
    }
}

/// Strings as plain text.
pub open spec fn texts(names: Seq<String>) -> Seq<Seq<char>> {
    names.map_values(|s: String| s@)
}

/// Media files as plain values.
pub open spec fn img_views(imgs: Seq<ImgInfo>) -> Seq<ImgInfoView> {
    imgs.map_values(|i: ImgInfo| i@)
}

/// Skipped files as plain values.
pub open spec fn skip_views(skipped: Seq<Skipped>) -> Seq<(Seq<char>, ReadError)> {
    skipped.map_values(|s: Skipped| (s.file_name@, s.reason))
}

/// The entries of a directory whose metadata a scan reads: all but hidden
/// entries, directories, entries of unknown kind and sidecars.
pub fn scan_candidates(entries: &Vec<DirEntry>) -> (names: Vec<String>)
    ensures
        texts(names@) == candidate_names(entries@),
{
    let mut names: Vec<String> = Vec::new();
    let mut i: usize = 0;
    assert(entries@.subrange(0, 0) =~= Seq::<DirEntry>::empty());
    assert(texts(names@) =~= Seq::<Seq<char>>::empty());
    while i < entries.len()
        invariant
            i <= entries.len(),
            texts(names@) == candidate_names(entries@.subrange(0, i as int)),
        decreases entries.len() - i,
    {
        let ghost upto = entries@.subrange(0, i + 1);
        let ghost before = names@;
        proof {
            assert(upto.drop_last() =~= entries@.subrange(0, i as int));
            assert(upto.last() == entries@[i as int]);
        }
        let entry = &entries[i];
        if !is_skipped(entry.file_name.as_str(), entry.is_dir) {
            names.push(entry.file_name.clone());
            assert(texts(names@) =~= texts(before).push(entry.file_name@));
        }
        i += 1;
    }
    assert(entries@.subrange(0, i as int) =~= entries@);
    names
}

/// A string as an optional `str`.
fn as_text(s: &Option<String>) -> (r: Option<&str>)
    ensures
        tag_text(r) == text_of(*s),
{
    match s {
        Some(t) => Some(t.as_str()),
        None => None,
    }
}

/// Sorts the readings of a directory's candidates into media files and
/// skipped files. A file whose capture time is missing or does not parse
/// is skipped, whatever else was read from it; every other file is kept.
pub fn scan_for_images(dir: &str, readings: &Vec<Reading>) -> (scan: Scan)
    ensures
        img_views(scan.imgs@) == scanned_imgs(dir@, readings@),
        skip_views(scan.skipped@) == scanned_skips(dir@, readings@),
{
    let mut imgs: Vec<ImgInfo> = Vec::new();
    let mut skipped: Vec<Skipped> = Vec::new();
    let mut i: usize = 0;
    assert(readings@.subrange(0, 0) =~= Seq::<Reading>::empty());
    assert(img_views(imgs@) =~= Seq::<ImgInfoView>::empty());
    assert(skip_views(skipped@) =~= Seq::<(Seq<char>, ReadError)>::empty());
    while i < readings.len()
        invariant
            i <= readings.len(),
            img_views(imgs@) == scanned_imgs(dir@, readings@.subrange(0, i as int)),
            skip_views(skipped@) == scanned_skips(dir@, readings@.subrange(0, i as int)),
        decreases readings.len() - i,
    {
        let ghost upto = readings@.subrange(0, i + 1);
        let ghost imgs_before = imgs@;
        let ghost skipped_before = skipped@;
        proof {
            assert(upto.drop_last() =~= readings@.subrange(0, i as int));
            assert(upto.last() == readings@[i as int]);
        }
        let reading = &readings[i];
        let outcome = read_img(
            dir,
            reading.file_name.as_str(),
            as_text(&reading.date_tag),
            as_text(&reading.model_tag),
            reading.sidecar_exists,
        );
        match outcome {
            Ok(img) => {
                imgs.push(img);
                assert(img_views(imgs@) =~= img_views(imgs_before).push(img@));
            },
            Err(reason) => {
                let skip = Skipped { file_name: reading.file_name.clone(), reason };
                skipped.push(skip);
                assert(skip_views(skipped@) =~= skip_views(skipped_before).push((reading.file_name@, reason)));
            },
        }
        i += 1;
    }
    assert(readings@.subrange(0, i as int) =~= readings@);
    Scan { imgs, skipped }
}

/// Every reading ends up either as a media file or as a skipped file.
pub proof fn lemma_scan_accounts_for_every_reading(dir: Seq<char>, readings: Seq<Reading>)
    ensures
        scanned_imgs(dir, readings).len() + scanned_skips(dir, readings).len() == readings.len(),
    decreases readings.len(),
{
    if readings.len() > 0 {
        lemma_scan_accounts_for_every_reading(dir, readings.drop_last());
    }
}

/// A file whose capture time is missing or does not parse is among the
/// skipped files of a scan that ends with it, and adds no media file.
pub proof fn lemma_unreadable_time_is_skipped(dir: Seq<char>, readings: Seq<Reading>, reading: Reading)
    requires
        parsed_tag(text_of(reading.date_tag)).is_none(),
    ensures
        scanned_imgs(dir, readings.push(reading)) == scanned_imgs(dir, readings),
        scanned_skips(dir, readings.push(reading)).len() == scanned_skips(dir, readings).len() + 1,
        scanned_skips(dir, readings.push(reading)).last().0 == reading.file_name@,
{
    assert(readings.push(reading).drop_last() =~= readings);
    assert(readings.push(reading).last() == reading);
}

/// Every media file of a scan comes from a reading whose capture time
/// parsed, and carries that reading's name and that time.
pub proof fn lemma_scanned_imgs_have_times(dir: Seq<char>, readings: Seq<Reading>)
    ensures
        forall|k: int|
            0 <= k < scanned_imgs(dir, readings).len() ==> exists|i: int|
                0 <= i < readings.len() && parsed_tag(text_of(readings[i].date_tag)) == Some(
                    (#[trigger] scanned_imgs(dir, readings)[k]).date,
                ) && readings[i].file_name@ == scanned_imgs(dir, readings)[k].file_name,
    decreases readings.len(),
{
    if readings.len() > 0 {
        let front = readings.drop_last();
        lemma_scanned_imgs_have_times(dir, front);
        let imgs = scanned_imgs(dir, readings);
        assert forall|k: int| 0 <= k < imgs.len() implies exists|i: int|
            0 <= i < readings.len() && parsed_tag(text_of(readings[i].date_tag)) == Some((#[trigger] imgs[k]).date)
                && readings[i].file_name@ == imgs[k].file_name by {
            if k < scanned_imgs(dir, front).len() {
                assert(imgs[k] == scanned_imgs(dir, front)[k]);
                let i = choose|i: int|
                    0 <= i < front.len() && parsed_tag(text_of(front[i].date_tag)) == Some(
                        scanned_imgs(dir, front)[k].date,
                    ) && front[i].file_name@ == scanned_imgs(dir, front)[k].file_name;
                assert(readings[i] == front[i]);
            } else {
                let i = readings.len() - 1;
                assert(parsed_tag(text_of(readings[i].date_tag)) == Some(imgs[k].date));
            }
        }
    }
}

} // verus!
