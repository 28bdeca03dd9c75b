//! The record mutator: deriving the field set for a new record from the
//! add workflow's inputs, validating the update workflow's arguments,
//! and ordering the remove workflow's default-unset and delete steps.

use vstd::prelude::*;
use crate::entry::BootEntry;
use crate::prefix::{strip_prefix_spec, strip_path_prefix};
use crate::strtok::{
    find_last, find_last_in, lemma_rfind_at_match, trim_ws, trim_ws_spec,
};

verus! {

/// Why an add request is rejected.
#[derive(PartialEq, Eq, Structural, Clone, Copy, Debug)]
pub enum AddError {
    /// No title was supplied: the kernel title must be specified.
    TitleMissing,
}

/// Why an update request is rejected.
#[derive(PartialEq, Eq, Structural, Clone, Copy, Debug)]
pub enum UpdateError {
    /// Neither arguments to add nor arguments to remove were supplied.
    ArgumentsMissing,
}

/// The marker before the version suffix in a kernel filename.
pub open spec fn vmlinuz_marker() -> Seq<char> {
    "vmlinuz-"@
}

/// The version a kernel path yields: what follows the last occurrence of
/// the marker, or empty when the marker is absent or ends the path.
pub open spec fn version_of(kernel: Seq<char>) -> Seq<char> {
    if find_last(kernel, vmlinuz_marker()) < 0 {
        Seq::<char>::empty()
    } else {
        kernel.skip(find_last(kernel, vmlinuz_marker()) + vmlinuz_marker().len() as int)
    }
}

/// Derives the version suffix from a kernel path.
pub fn derive_version(kernel: &str) -> (r: String)
    ensures
        r@ == version_of(kernel@),
{
    let (found, at) = find_last_in(kernel, "vmlinuz-");
    if !found {
        String::new()
    } else {
        proof {
            reveal_strlit("vmlinuz-");
            assert(vmlinuz_marker().len() == 8);
            lemma_rfind_at_match(kernel@, vmlinuz_marker(), kernel@.len() - 8);
        }
        let len = kernel.unicode_len();
        let r = String::from_str(kernel.substring_char(at + 8, len));
        proof {
            assert(r@ =~= version_of(kernel@));
        }
        r
    }
}

/// The options a new record starts from: the copied seed when one was
/// handed over, extended by the extra arguments separated with one
/// space, or the arguments alone when the seed is empty.
pub open spec fn planned_options(seed: Option<Seq<char>>, args: Option<Seq<char>>) -> Seq<
    char,
> {
    let s = match seed {
        Some(v) => v,
        None => Seq::<char>::empty(),
    };
    match args {
        None => s,
        Some(a) => if s.len() == 0 {
            a
        } else {
            s + seq![' '] + a
        },
    }
}

/// The synthesized initrd path for a version, under the mount prefix.
pub open spec fn default_initrd(prefix: Seq<char>, version: Seq<char>) -> Seq<char> {
    prefix + "/initramfs-"@ + version + ".img"@
}

/// The initrd list of a new record: the explicit or synthesized primary
/// path, then the extra path when one was supplied, each with the mount
/// prefix stripped, in insertion order.
pub open spec fn planned_initrds(
    initrd: Option<Seq<char>>,
    extra: Option<Seq<char>>,
    kernel: Seq<char>,
    prefix: Seq<char>,
) -> Seq<Seq<char>> {
    let primary0 = match initrd {
        Some(p) => p,
        None => default_initrd(prefix, version_of(kernel)),
    };
    let primary = strip_prefix_spec(primary0, prefix);
    match extra {
        Some(x) => if x.len() > 0 {
            seq![primary, strip_prefix_spec(x, prefix)]
        } else {
            seq![primary]
        },
        None => seq![primary],
    }
}

/// The identifier of a new record: the trimmed machine identity, a
/// hyphen, and the version.
pub open spec fn planned_id(identity: Seq<char>, version: Seq<char>) -> Seq<char> {
    trim_ws_spec(identity) + seq!['-'] + version
}

/// The synthesized initrd path for a version.
pub fn default_initrd_path(prefix: &str, version: &str) -> (r: String)
    ensures
        r@ == default_initrd(prefix@, version@),
{
    let r = String::from_str(prefix).concat("/initramfs-").concat(version).concat(".img");
    proof {
        assert(r@ =~= default_initrd(prefix@, version@));
    }
    r
}

/// Builds the whole field set of a new record from the add workflow's
/// inputs, or rejects the request when no title was supplied.
///
/// `seed_options` is the default record's options string when the
/// copy-default flag was given; `identity` is the identity file's raw
/// contents, trimmed here before it names the record.
pub fn plan_add_entry(
    title: &Option<String>,
    kernel: &str,
    args: &Option<String>,
    initrd: &Option<String>,
    extra_initrd: &Option<String>,
    seed_options: &Option<String>,
    prefix: &str,
    identity: &str,
) -> (r: Result<BootEntry, AddError>)
    ensures
        r is Err <==> title is None,
        r matches Err(er) ==> er == AddError::TitleMissing,
        r matches Ok(e) ==> e@.wf(),
        r matches Ok(e) ==> e@.title == title->0@,
        r matches Ok(e) ==> e@.version == version_of(kernel@),
        r matches Ok(e) ==> e@.linux == strip_prefix_spec(kernel@, prefix@),
        r matches Ok(e) ==> e@.options == planned_options(seed_options.deep_view(),
            args.deep_view()),
        r matches Ok(e) ==> e@.initrd == planned_initrds(initrd.deep_view(),
            extra_initrd.deep_view(), kernel@, prefix@),
        r matches Ok(e) ==> e@.id == planned_id(identity@, version_of(kernel@)),
        r matches Ok(e) ==> e@.grub_users == "$grub_users"@ && e@.grub_arg == "--unrestricted"@
            && e@.grub_class == "kernel"@,
{
    let title_s: &String = match title {
        Some(t) => t,
        None => {
            return Err(AddError::TitleMissing);
        },
    };
    let version = derive_version(kernel);

    let seed: String = match seed_options {
        Some(s) => String::from_str(s.as_str()),
        None => String::new(),
    };
    let options: String = match args {
        Some(a) => {
            if seed.unicode_len() == 0 {
                String::from_str(a.as_str())
            } else {
                let o = seed.concat(" ").concat(a.as_str());
                proof {
                    reveal_strlit(" ");
                    assert(" "@ =~= seq![' ']);
                }
                o
            }
        },
        None => seed,
    };
    proof {
        assert(options@ == planned_options(seed_options.deep_view(), args.deep_view()));
    }

    let primary0: String = match initrd {
        Some(p) => String::from_str(p.as_str()),
        None => default_initrd_path(prefix, version.as_str()),
    };
    let primary = strip_path_prefix(primary0.as_str(), prefix);
    let mut initrds: Vec<String> = Vec::new();
    initrds.push(primary);
    if let Some(x) = extra_initrd {
        if x.as_str().unicode_len() > 0 {
            initrds.push(strip_path_prefix(x.as_str(), prefix));
        }
    }
    proof {
        assert(initrds.deep_view() =~= planned_initrds(initrd.deep_view(),
            extra_initrd.deep_view(), kernel@, prefix@));
    }

    let linux = strip_path_prefix(kernel, prefix);
    let id = trim_ws(identity).concat("-").concat(version.as_str());
    proof {
        reveal_strlit("-");
        assert("-"@ =~= seq!['-']);
        assert(id@ =~= planned_id(identity@, version_of(kernel@)));
    }

    let e = BootEntry {
        id,
        title: String::from_str(title_s.as_str()),
        version,
        linux,
        initrd: initrds,
        options,
        grub_users: String::from_str("$grub_users"),
        grub_arg: String::from_str("--unrestricted"),
        grub_class: String::from_str("kernel"),
    };
    Ok(e)
}

/// Validates the update workflow's inputs: at least one of the two
/// argument strings must be supplied; each absent one becomes empty.
pub fn plan_update_args(args: &Option<String>, remove_args: &Option<String>) -> (r: Result<
    (String, String),
    UpdateError,
>)
    ensures
        r is Err <==> (args is None && remove_args is None),
        r matches Err(er) ==> er == UpdateError::ArgumentsMissing,
        r matches Ok(p) ==> p.0@ == (match args {
            Some(a) => a@,
            None => Seq::<char>::empty(),
        }),
        r matches Ok(p) ==> p.1@ == (match remove_args {
            Some(a) => a@,
            None => Seq::<char>::empty(),
        }),
{
    if args.is_none() && remove_args.is_none() {
        return Err(UpdateError::ArgumentsMissing);
    }
    let a = match args {
        Some(a) => String::from_str(a.as_str()),
        None => String::new(),
    };
    let ra = match remove_args {
        Some(a) => String::from_str(a.as_str()),
        None => String::new(),
    };
    Ok((a, ra))
}

/// One step of the remove workflow.
#[derive(PartialEq, Eq, Structural, Clone, Copy, Debug)]
pub enum RemoveAction {
    /// Neutralize the backend's default pointer.
    UnsetDefault,
    /// Delete the record at this enumeration index from the store.
    Delete(usize),
}

/// The ordered steps that remove the given records: each record is
/// deleted in selection order, and the record whose index is the current
/// default has the default pointer unset immediately before its delete.
pub open spec fn remove_plan_spec(ids: Seq<usize>, default: usize) -> Seq<RemoveAction>
    decreases ids.len(),
{
    if ids.len() == 0 {
        Seq::<RemoveAction>::empty()
    } else {
        remove_plan_spec(ids.drop_last(), default) + (if ids.last() == default {
            seq![RemoveAction::UnsetDefault, RemoveAction::Delete(ids.last())]
        } else {
            seq![RemoveAction::Delete(ids.last())]
        })
    }
}

/// Plans the remove workflow over the selected record indices.
pub fn plan_remove_entries(indices: &Vec<usize>, default: usize) -> (r: Vec<RemoveAction>)
    ensures
        r@ == remove_plan_spec(indices@, default),
{
    let mut r: Vec<RemoveAction> = Vec::new();
    let mut i: usize = 0;
    proof {
        assert(indices@.take(0) =~= Seq::<usize>::empty());
        assert(r@ =~= remove_plan_spec(indices@.take(0), default));
    }
    while i < indices.len()
        invariant
            i <= indices.len(),
            r@ == remove_plan_spec(indices@.take(i as int), default),
        decreases indices.len() - i,
    {
        let ghost prev = r@;
        proof {
            assert(indices@.take(i + 1).drop_last() =~= indices@.take(i as int));
            assert(indices@.take(i + 1).last() == indices@[i as int]);
        }
        let idx = indices[i];
        if idx == default {
            r.push(RemoveAction::UnsetDefault);
            r.push(RemoveAction::Delete(idx));
            proof {
                assert(r@ =~= prev + seq![
                    RemoveAction::UnsetDefault,
                    RemoveAction::Delete(indices@[i as int]),
                ]);
            }
        } else {
            r.push(RemoveAction::Delete(idx));
            proof {
                assert(r@ =~= prev + seq![RemoveAction::Delete(indices@[i as int])]);
            }
        }
        i = i + 1;
    }
    proof {
        assert(indices@.take(indices.len() as int) =~= indices@);
    }
    r
}

/// Whenever the plan deletes the default record, the step just before
/// that delete unsets the default pointer.
pub proof fn lemma_remove_unsets_default_first(ids: Seq<usize>, default: usize)
    ensures
        forall|k: int|
            0 <= k < remove_plan_spec(ids, default).len() && #[trigger] remove_plan_spec(
                ids,
                default,
            )[k] == RemoveAction::Delete(default) ==> k >= 1 && remove_plan_spec(ids, default)[k
                - 1] == RemoveAction::UnsetDefault,
    decreases ids.len(),
{
    if ids.len() == 0 {
    } else {
        lemma_remove_unsets_default_first(ids.drop_last(), default);
        let prev = remove_plan_spec(ids.drop_last(), default);
        let cur = remove_plan_spec(ids, default);
        assert forall|k: int| 0 <= k < cur.len() && #[trigger] cur[k] == RemoveAction::Delete(
            default,
        ) implies k >= 1 && cur[k - 1] == RemoveAction::UnsetDefault by {
            if k < prev.len() {
                assert(cur[k] == prev[k]);
                assert(prev[k - 1] == cur[k - 1]);
            } else {
                if ids.last() == default {
                    assert(cur[prev.len() as int] == RemoveAction::UnsetDefault);
                    assert(cur[prev.len() as int + 1] == RemoveAction::Delete(ids.last()));
                    assert(k == prev.len() as int + 1);
                } else {
                    assert(cur[prev.len() as int] == RemoveAction::Delete(ids.last()));
                    assert(ids.last() != default);
                }
            }
        }
    }
}

/// Neutralizes the backend's default-pointer state before the default
/// record is deleted. No backend mechanism is implemented yet, so the
/// step writes nothing: it marks the sequencing point that removal
/// plans order before the delete.
pub fn unset_default_bls() {
}

} // verus!
