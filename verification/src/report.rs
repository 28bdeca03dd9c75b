//! The info report: the fixed set of labeled lines that describe one
//! record, kernel and initrd paths shown behind the mount prefix and the
//! options split into arguments and root device.

use vstd::prelude::*;
use crate::entry::{BootEntry, BootEntryView};
use crate::options::{split_args, split_root, separate_root_param};
use crate::strtok::{dec_str, usize_to_string};

verus! {

/// The labeled lines reported for one record: its index, its prefixed
/// kernel path, its split arguments and root device, each prefixed
/// initrd path in stored order, its title and its identifier.
pub open spec fn report_lines(index: nat, e: BootEntryView, prefix: Seq<char>) -> Seq<Seq<char>> {
    let head = seq![
        "index="@ + dec_str(index),
        "kernel=\""@ + prefix + e.linux + "\""@,
        "args=\""@ + split_args(e.options) + "\""@,
        "root=\""@ + split_root(e.options) + "\""@,
        "initrd=\""@ + prefix + e.initrd[0] + "\""@,
    ];
    let mid = if e.initrd.len() > 1 {
        head.push("initrd=\""@ + prefix + e.initrd[1] + "\""@)
    } else {
        head
    };
    mid + seq!["title=\""@ + e.title + "\""@, "id=\""@ + e.id + "\""@]
}

/// Formats the info report for one record.
pub fn format_entry_report(index: usize, e: &BootEntry, prefix: &str) -> (r: Vec<String>)
    requires
        e@.wf(),
    ensures
        r.deep_view() == report_lines(index as nat, e@, prefix@),
{
    let mut r: Vec<String> = Vec::new();
    proof {
        assert(e.initrd.deep_view().len() == e.initrd@.len());
    }
    let l_index = String::from_str("index=").concat(usize_to_string(index).as_str());
    r.push(l_index);
    let l_kernel = String::from_str("kernel=\"").concat(prefix).concat(e.linux.as_str()).concat(
        "\"",
    );
    r.push(l_kernel);
    let split = separate_root_param(e.options.as_str());
    let l_args = String::from_str("args=\"").concat(split.0.as_str()).concat("\"");
    r.push(l_args);
    let l_root = String::from_str("root=\"").concat(split.1.as_str()).concat("\"");
    r.push(l_root);
    let l_initrd = String::from_str("initrd=\"").concat(prefix).concat(e.initrd[0].as_str())
        .concat("\"");
    r.push(l_initrd);
    if e.initrd.len() > 1 {
        let l_extra = String::from_str("initrd=\"").concat(prefix).concat(e.initrd[1].as_str())
            .concat("\"");
        r.push(l_extra);
    }
    let l_title = String::from_str("title=\"").concat(e.title.as_str()).concat("\"");
    r.push(l_title);
    let l_id = String::from_str("id=\"").concat(e.id.as_str()).concat("\"");
    r.push(l_id);
    proof {
        assert(e.initrd.deep_view()[0] == e.initrd@[0]@);
        if e@.initrd.len() > 1 {
            assert(e.initrd.deep_view()[1] == e.initrd@[1]@);
        }
        assert(r.deep_view() =~= report_lines(index as nat, e@, prefix@));
    }
    r
}

} // verus!
