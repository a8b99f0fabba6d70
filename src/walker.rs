//! What the directory walk does with each entry it meets.
use vstd::prelude::*;
use crate::naming::{candidate_name, candidate_spec, jpeg_suffix};
use crate::timestamp::{parse_timestamp, timestamp_of};

verus! {

/// The lower-case form of a string, as `str::to_lowercase` computes it.
pub uninterp spec fn lower_of(s: Seq<char>) -> Seq<char>;

/// Relies on `str::to_lowercase`: its result depends on the characters of the
/// string alone.
#[verifier::external_body]
fn lowercase_chars(s: &str) -> (r: Vec<char>)
    ensures
        r@ == lower_of(s@),
{
    s.to_lowercase().chars().collect()
}

pub open spec fn jpg_suffix() -> Seq<char> {
    seq!['.', 'j', 'p', 'g']
}

pub open spec fn ends_with(s: Seq<char>, suffix: Seq<char>) -> bool {
    suffix.len() <= s.len() && s.subrange(s.len() - suffix.len(), s.len() as int) == suffix
}

/// Whether an already lower-cased file name ends in `.jpg` or `.jpeg`.
pub open spec fn photo_extension(lowered: Seq<char>) -> bool {
    ends_with(lowered, jpg_suffix()) || ends_with(lowered, jpeg_suffix())
}

/// Whether a file name is a photo's: its lower-case form ends in `.jpg` or
/// `.jpeg`.
pub open spec fn is_photo_name(name: Seq<char>) -> bool {
    photo_extension(lower_of(name))
}

fn ends_with_exec(s: &Vec<char>, suffix: &Vec<char>) -> (r: bool)
    ensures
        r == ends_with(s@, suffix@),
{
    let n = s.len();
    let m = suffix.len();
    if m > n {
        return false;
    }
    let mut k: usize = 0;
    while k < m
        invariant
            n == s@.len(),
            m == suffix@.len(),
            m <= n,
            k <= m,
            forall|j: int| 0 <= j < k ==> s@[n - m + j] == suffix@[j],
        decreases m - k,
    {
        if s[n - m + k] != suffix[k] {
            assert(s@.subrange(n - m, n as int)[k as int] != suffix@[k as int]);
            return false;
        }
        k = k + 1;
    }
    assert(s@.subrange(n - m, n as int) =~= suffix@);
    true
}

/// Whether an already lower-cased file name ends in `.jpg` or `.jpeg`.
pub fn has_photo_extension(lowered: &Vec<char>) -> (r: bool)
    ensures
        r == photo_extension(lowered@),
{
    let jpg: Vec<char> = vec!['.', 'j', 'p', 'g'];
    let jpeg: Vec<char> = vec!['.', 'j', 'p', 'e', 'g'];
    assert(jpg@ =~= jpg_suffix());
    assert(jpeg@ =~= jpeg_suffix());
    ends_with_exec(lowered, &jpg) || ends_with_exec(lowered, &jpeg)
}

/// Whether a file name is a photo's, the extension compared without regard
/// to case.
pub fn is_photo_file_name(name: &str) -> (r: bool)
    ensures
        r == is_photo_name(name@),
{
    let lowered = lowercase_chars(name);
    has_photo_extension(&lowered)
}

/// What the walk does with an entry of a directory.
#[derive(Clone, Copy, Debug, PartialEq, Eq, Structural)]
pub enum EntryKind {
    /// A regular file with a photo's extension: it is organised.
    Photo,
    /// A directory: the walk descends into it.
    Directory,
    /// Anything else: it is left alone.
    Other,
}

pub open spec fn entry_kind(is_file: bool, is_dir: bool, name: Seq<char>) -> EntryKind {
    if is_file {
        if is_photo_name(name) {
            EntryKind::Photo
        } else {
            EntryKind::Other
        }
    } else if is_dir {
        EntryKind::Directory
    } else {
        EntryKind::Other
    }
}

/// Sorts a directory entry: regular files go by their name's extension,
/// directories are descended into, and other entries are ignored.
pub fn classify_entry(is_file: bool, is_dir: bool, name: &str) -> (r: EntryKind)
    ensures
        r == entry_kind(is_file, is_dir, name@),
{
    if is_file {
        if is_photo_file_name(name) {
            EntryKind::Photo
        } else {
            EntryKind::Other
        }
    } else if is_dir {
        EntryKind::Directory
    } else {
        EntryKind::Other
    }
}

/// The candidate name a file is organised under: none where its name is not
/// a photo's, where it has no capture-time field, or where that field holds no
/// capture time.
pub open spec fn candidate_of(name: Seq<char>, tag: Option<Seq<u8>>) -> Option<Seq<char>> {
    if !is_photo_name(name) {
        None
    } else {
        match tag {
            None => None,
            Some(t) => match timestamp_of(t) {
                None => None,
                Some(ts) => Some(candidate_spec(ts)),
            },
        }
    }
}

/// The bytes of a field value, if there is one.
pub open spec fn field_view(tag: Option<&[u8]>) -> Option<Seq<u8>> {
    match tag {
        None => None,
        Some(t) => Some(t@),
    }
}

/// The candidate name for a file, from its name and the value of its
/// capture-time field, if it has one.
pub fn candidate_for(name: &str, tag: Option<&[u8]>) -> (r: Option<String>)
    ensures
        r is Some == candidate_of(name@, field_view(tag)) is Some,
        r is Some ==> r->Some_0@ == candidate_of(name@, field_view(tag))->Some_0,
{
    if !is_photo_file_name(name) {
        return None;
    }
    match tag {
        None => None,
        Some(t) => match parse_timestamp(t) {
            None => None,
            Some(ts) => Some(candidate_name(&ts)),
        },
    }
}

} // verus!
