//! The mount-prefix resolver: deciding from the mount table whether boot
//! paths live under the boot mount point, and stripping that prefix from
//! a path before storage.

use vstd::prelude::*;
use crate::strtok::{
    split_sp, split_spaces, str_eq, find_first, find_first_in, lemma_find_at_match,
};

verus! {

/// The fixed boot mount point.
pub open spec fn boot_mount_point() -> Seq<char> {
    "/boot"@
}

/// Whether one mount-table line names the boot mount point: fields are
/// space-separated and the mount point stands in the fifth field. A line
/// with fewer than five fields names no mount point.
pub open spec fn mount_line_matches(line: Seq<char>) -> bool {
    split_sp(line).len() >= 5 && split_sp(line)[4] == boot_mount_point()
}

/// The mount prefix the mount table yields: the boot mount point when
/// some line names it, and empty otherwise.
pub open spec fn prefix_of_mounts(lines: Seq<Seq<char>>) -> Seq<char> {
    if exists|i: int| 0 <= i < lines.len() && mount_line_matches(#[trigger] lines[i]) {
        boot_mount_point()
    } else {
        Seq::<char>::empty()
    }
}

/// Resolves the mount prefix from the mount table's lines: the boot
/// mount point when any line's fifth space-separated field equals it,
/// and the empty string otherwise.
pub fn prefix_from_mounts(lines: &Vec<String>) -> (r: String)
    ensures
        r@ == prefix_of_mounts(lines.deep_view()),
{
    let mut i: usize = 0;
    while i < lines.len()
        invariant
            i <= lines.len(),
            lines.deep_view().len() == lines.len(),
            forall|j: int|
                0 <= j < i ==> !mount_line_matches(#[trigger] lines.deep_view()[j]),
        decreases lines.len() - i,
    {
        let cols = split_spaces(lines[i].as_str());
        proof {
            assert(lines[i as int]@ == lines.deep_view()[i as int]);
            assert(cols.deep_view() == split_sp(lines.deep_view()[i as int]));
        }
        if cols.len() >= 5 && str_eq(cols[4].as_str(), "/boot") {
            proof {
                assert(cols.deep_view()[4] == cols[4 as int]@);
                assert(mount_line_matches(lines.deep_view()[i as int]));
            }
            return String::from_str("/boot");
        }
        proof {
            assert(cols.deep_view().len() == cols.len());
            if cols.len() >= 5 {
                assert(cols.deep_view()[4] == cols[4 as int]@);
            }
            assert(!mount_line_matches(lines.deep_view()[i as int]));
        }
        i = i + 1;
    }
    proof {
        assert(!(exists|j: int|
            0 <= j < lines.deep_view().len() && mount_line_matches(
                #[trigger] lines.deep_view()[j],
            )));
    }
    String::new()
}

/// A path after prefix stripping: when the prefix is non-empty and
/// occurs in the path, everything through its first occurrence is
/// dropped, unless nothing would remain; otherwise the path is kept
/// whole.
pub open spec fn strip_prefix_spec(s: Seq<char>, p: Seq<char>) -> Seq<char> {
    if p.len() == 0 || find_first(s, p) < 0 {
        s
    } else if find_first(s, p) + p.len() < s.len() {
        s.skip(find_first(s, p) + p.len() as int)
    } else {
        s
    }
}

/// Strips the mount prefix from a user-supplied or synthesized path
/// before it is stored.
pub fn strip_path_prefix(path: &str, prefix: &str) -> (r: String)
    ensures
        r@ == strip_prefix_spec(path@, prefix@),
{
    let plen = prefix.unicode_len();
    if plen == 0 {
        return String::from_str(path);
    }
    let (found, at) = find_first_in(path, prefix);
    if !found {
        return String::from_str(path);
    }
    proof {
        lemma_find_at_match(path@, prefix@, 0);
    }
    let slen = path.unicode_len();
    if at + plen < slen {
        String::from_str(path.substring_char(at + plen, slen))
    } else {
        String::from_str(path)
    }
}

} // verus!
