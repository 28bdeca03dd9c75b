//! The boot-entry record: the field set one persisted record carries,
//! and the derivation of a record's identifier from its backing filename.

use vstd::prelude::*;
use crate::strtok::str_eq;

verus! {

/// One boot-loader record, as the record store holds it: every field a
/// plain value, the initrd paths in insertion order.
#[derive(Debug)]
pub struct BootEntry {
    /// The storage identifier: the backing filename with its fixed
    /// suffix removed. Assigned once, at creation.
    pub id: String,
    pub title: String,
    pub version: String,
    pub linux: String,
    pub initrd: Vec<String>,
    pub options: String,
    pub grub_users: String,
    pub grub_arg: String,
    pub grub_class: String,
}

/// The mathematical view of one record.
pub ghost struct BootEntryView {
    pub id: Seq<char>,
    pub title: Seq<char>,
    pub version: Seq<char>,
    pub linux: Seq<char>,
    pub initrd: Seq<Seq<char>>,
    pub options: Seq<char>,
    pub grub_users: Seq<char>,
    pub grub_arg: Seq<char>,
    pub grub_class: Seq<char>,
}

impl View for BootEntry {
    type V = BootEntryView;

    open spec fn view(&self) -> BootEntryView {
        BootEntryView {
            id: self.id@,
            title: self.title@,
            version: self.version@,
            linux: self.linux@,
            initrd: self.initrd.deep_view(),
            options: self.options@,
            grub_users: self.grub_users@,
            grub_arg: self.grub_arg@,
            grub_class: self.grub_class@,
        }
    }
}

impl BootEntryView {
    /// A well-formed record holds one or two initrd paths; every other
    /// field carries exactly one value.
    pub open spec fn wf(self) -> bool {
        1 <= self.initrd.len() <= 2
    }
}

/// The suffix that record filenames carry in the store.
pub open spec fn conf_suffix() -> Seq<char> {
    ".conf"@
}

/// The identifier derived from a backing filename: the fixed suffix is
/// removed when present, and the name is kept whole otherwise.
pub open spec fn id_of_filename(name: Seq<char>) -> Seq<char> {
    if conf_suffix().is_suffix_of(name) {
        name.take(name.len() - conf_suffix().len())
    } else {
        name
    }
}

/// Whether `p` ends `s`, proved against the views.
pub fn has_suffix(s: &str, p: &str) -> (r: bool)
    ensures
        r == p@.is_suffix_of(s@),
{
    let slen = s.unicode_len();
    let plen = p.unicode_len();
    if plen > slen {
        return false;
    }
    let tail = s.substring_char(slen - plen, slen);
    let r = str_eq(tail, p);
    proof {
        assert(tail@ == s@.subrange(slen - plen, slen as int));
    }
    r
}

/// The record identifier for a backing filename.
pub fn id_from_filename(name: &str) -> (r: String)
    ensures
        r@ == id_of_filename(name@),
{
    if has_suffix(name, ".conf") {
        let len = name.unicode_len();
        proof {
            reveal_strlit(".conf");
            assert(conf_suffix().len() == 5);
        }
        let r = String::from_str(name.substring_char(0, len - 5));
        proof {
            assert(r@ =~= name@.take(name@.len() - conf_suffix().len()));
        }
        r
    } else {
        String::from_str(name)
    }
}

} // verus!
