//! Storage path policy: where note files live on each platform family,
//! and how a note's file name relates to its title.
//!
//! Resolution is a pure mapping from a platform identifier and supplied
//! environment values; it performs no filesystem access, so the policy
//! can be exercised with fake environment values.  The host creates the
//! resolved directory before using it.

use vstd::prelude::*;
use vstd::string::StringExecFns;
use crate::sanitize::SanitizedTitle;

verus! {

/// The platform family the store runs on.
#[derive(Clone, Copy)]
pub enum Platform {
    Mobile,
    Desktop,
}

/// The notes directory: an application-data path on mobile platforms,
/// a documents path on desktop ones, with a fallback when the
/// environment offers no base directory.
pub open spec fn spec_storage_root(platform: Platform, base: Option<Seq<char>>) -> Seq<char> {
    match platform {
        Platform::Mobile => (match base {
            Some(b) => b,
            None => "/data/data"@,
        }) + "/files/notes"@,
        Platform::Desktop => (match base {
            Some(b) => b,
            None => "/tmp"@,
        }) + "/Documents/encrypted_notes"@,
    }
}

/// Computes the directory under which all note files live.  Pure
/// policy: no filesystem access and no directory creation.
pub fn get_notes_directory(platform: Platform, base: Option<&str>) -> (r: String)
    ensures
        r@ == spec_storage_root(
            platform,
            match base {
                Some(b) => Some(b@),
                None => None,
            },
        ),
{
    let mut out: String = match base {
        Some(b) => b.to_owned(),
        None => match platform {
            Platform::Mobile => "/data/data".to_owned(),
            Platform::Desktop => "/tmp".to_owned(),
        },
    };
    match platform {
        Platform::Mobile => out.append("/files/notes"),
        Platform::Desktop => out.append("/Documents/encrypted_notes"),
    }
    out
}

/// The file name of a note: its sanitized title with the note
/// extension.
pub open spec fn spec_note_file_name(title: Seq<char>) -> Seq<char> {
    title + ".txt"@
}

/// The title a file name stands for: the name without the note
/// extension, or `None` for a file that is not a note.
pub open spec fn title_of_file_name(name: Seq<char>) -> Option<Seq<char>> {
    if name.len() >= 4 && name.skip(name.len() - 4) == ".txt"@ {
        Some(name.take(name.len() - 4))
    } else {
        None
    }
}

/// The file name under which a note is stored.
pub fn note_file_name(title: &SanitizedTitle) -> (r: String)
    ensures
        r@ == spec_note_file_name(title@),
{
    let mut out = title.to_text();
    out.append(".txt");
    out
}

/// Strips the note extension from a directory entry name; `None` for
/// entries that are not note files.
pub fn strip_note_extension(name: &Vec<char>) -> (r: Option<Vec<char>>)
    ensures
        match r {
            Some(t) => title_of_file_name(name@) == Some(t@),
            None => title_of_file_name(name@) is None,
        },
{
    proof {
        reveal_strlit(".txt");
    }
    let n = name.len();
    if n < 4 {
        return None;
    }
    if name[n - 4] == '.' && name[n - 3] == 't' && name[n - 2] == 'x' && name[n - 1] == 't' {
        let mut out: Vec<char> = Vec::new();
        let mut i: usize = 0;
        while i < n - 4
            invariant
                n == name@.len(),
                n >= 4,
                i <= n - 4,
                out@ == name@.subrange(0, i as int),
            decreases n - 4 - i,
        {
            out.push(name[i]);
            proof {
                assert(out@ =~= name@.subrange(0, i as int + 1));
            }
            i = i + 1;
        }
        proof {
            assert(name@.skip(n - 4) =~= ".txt"@);
        }
        Some(out)
    } else {
        proof {
            if name@.skip(n - 4) == ".txt"@ {
                assert(name@.skip(n - 4)[0] == name@[n - 4]);
                assert(name@.skip(n - 4)[1] == name@[n - 3]);
                assert(name@.skip(n - 4)[2] == name@[n - 2]);
                assert(name@.skip(n - 4)[3] == name@[n - 1]);
                assert(false);
            }
        }
        None
    }
}

} // verus!
