//! Validation of image paths: an uploaded image may only land directly in
//! the image folder, so a path is accepted only when its resolved parent
//! directory is that folder — a bare file name after `images/`, with no
//! further separators and no traversal steps.

use vstd::prelude::*;

verus! {

/// Whether `p` addresses a file directly inside the image folder: the
/// prefix `images/` followed by a non-empty name that holds no `/` and is
/// neither `.` nor `..`.
pub open spec fn in_image_folder(p: Seq<char>) -> bool {
    &&& p.len() >= 8
    &&& p.subrange(0, 7) == "images/"@
    &&& forall|k: int| 7 <= k < p.len() ==> p[k] != '/'
    &&& !(p.len() == 8 && p[7] == '.')
    &&& !(p.len() == 9 && p[7] == '.' && p[8] == '.')
}

/// Accepts a path only when it resolves to a file directly inside the
/// image folder; rejects anything shorter, anything outside `images/`, and
/// any name that could traverse out of it.
pub fn validate_path_is_in_image_folder(path: &str) -> (r: bool)
    ensures
        r == in_image_folder(path@),
{
    proof {
        reveal_strlit("images/");
    }
    let n = path.unicode_len();
    if n < 8 {
        return false;
    }
    let mut k: usize = 0;
    while k < 7
        invariant
            k <= 7,
            n == path@.len(),
            n >= 8,
            forall|j: int| 0 <= j < k ==> path@[j] == "images/"@[j],
        decreases 7 - k,
    {
        proof {
            reveal_strlit("images/");
        }
        let prefix = "images/";
        if path.get_char(k) != prefix.get_char(k) {
            proof {
                assert(path@.subrange(0, 7)[k as int] == path@[k as int]);
            }
            return false;
        }
        k += 1;
    }
    let mut m: usize = 7;
    while m < n
        invariant
            7 <= m <= n,
            n == path@.len(),
            forall|j: int| 7 <= j < m ==> path@[j] != '/',
        decreases n - m,
    {
        if path.get_char(m) == '/' {
            return false;
        }
        m += 1;
    }
    if n == 8 && path.get_char(7) == '.' {
        return false;
    }
    if n == 9 && path.get_char(7) == '.' {
        if path.get_char(8) == '.' {
            return false;
        }
    }
    proof {
        assert(path@.subrange(0, 7) =~= "images/"@);
    }
    true
}

} // verus!
