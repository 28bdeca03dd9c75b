//! The selector resolver: which records of the enumerated, zero-indexed
//! record list a selector string names, by a fixed set of match rules,
//! and the locator of the default record.

use vstd::prelude::*;
use crate::entry::{BootEntry, BootEntryView};
use crate::strtok::{dec_str, digit_char, usize_to_string, str_eq};

verus! {

/// The positional index of the record currently treated as the boot
/// default. The backend's persisted default pointer is not read yet:
/// the first enumerated record stands as the default, and every caller
/// queries this fresh rather than caching it.
pub fn get_default_index() -> (r: usize)
    ensures
        r == 0,
{
    0
}

/// Locates the default record in an enumeration of `count` records: the
/// enumeration holds it exactly when it reaches the default index, and
/// an empty store has no default record.
pub fn default_entry_position(count: usize) -> (r: Option<usize>)
    ensures
        r is Some <==> count > 0,
        r matches Some(i) ==> i == 0,
{
    let d = get_default_index();
    if d < count {
        Some(d)
    } else {
        None
    }
}

/// Whether the record at index `idx` matches the selector: the selector
/// names all records, or the default record's index, or the record's own
/// index in decimal, or the record's kernel path behind the mount prefix,
/// or the record's exact title.
pub open spec fn matches_selector(
    sel: Seq<char>,
    idx: int,
    e: BootEntryView,
    default: int,
    prefix: Seq<char>,
) -> bool {
    ||| sel == "ALL"@
    ||| (sel == "DEFAULT"@ && idx == default)
    ||| sel == dec_str(idx as nat)
    ||| sel == prefix + e.linux
    ||| sel == "TITLE="@ + e.title
}

/// The indices of the matching records among the first `n`, in
/// enumeration order.
pub open spec fn selected_upto(
    sel: Seq<char>,
    es: Seq<BootEntryView>,
    default: int,
    prefix: Seq<char>,
    n: int,
) -> Seq<int>
    decreases n,
{
    if n <= 0 {
        Seq::<int>::empty()
    } else {
        let rest = selected_upto(sel, es, default, prefix, n - 1);
        if matches_selector(sel, n - 1, es[n - 1], default, prefix) {
            rest.push(n - 1)
        } else {
            rest
        }
    }
}

/// The indices of every matching record, in enumeration order.
pub open spec fn selected_indices(
    sel: Seq<char>,
    es: Seq<BootEntryView>,
    default: int,
    prefix: Seq<char>,
) -> Seq<int> {
    selected_upto(sel, es, default, prefix, es.len() as int)
}

/// Resolves a selector against the enumerated record list: the returned
/// indices are exactly those of the matching records, in enumeration
/// order. An empty result is a valid empty selection, not an error.
pub fn select_entries(selector: &str, entries: &Vec<BootEntry>, default: usize, prefix: &str) -> (r:
    Vec<usize>)
    ensures
        r@.map_values(|u: usize| u as int) == selected_indices(
            selector@,
            entries@.map_values(|e: BootEntry| e@),
            default as int,
            prefix@,
        ),
        forall|k: int| 0 <= k < r@.len() ==> (#[trigger] r@[k]) < entries.len(),
{
    let ghost es = entries@.map_values(|e: BootEntry| e@);
    let mut r: Vec<usize> = Vec::new();
    let mut i: usize = 0;
    proof {
        assert(r@.map_values(|u: usize| u as int) =~= selected_upto(
            selector@,
            es,
            default as int,
            prefix@,
            0,
        ));
    }
    while i < entries.len()
        invariant
            es == entries@.map_values(|e: BootEntry| e@),
            es.len() == entries.len(),
            i <= entries.len(),
            r@.map_values(|u: usize| u as int) == selected_upto(
                selector@,
                es,
                default as int,
                prefix@,
                i as int,
            ),
            forall|k: int| 0 <= k < r@.len() ==> (#[trigger] r@[k]) < entries.len(),
        decreases entries.len() - i,
    {
        let e = &entries[i];
        let idx_str = usize_to_string(i);
        let path_sel = String::from_str(prefix).concat(e.linux.as_str());
        let title_sel = String::from_str("TITLE=").concat(e.title.as_str());
        let m = str_eq(selector, "ALL") || (str_eq(selector, "DEFAULT") && i == default) || str_eq(
            selector,
            idx_str.as_str(),
        ) || str_eq(selector, path_sel.as_str()) || str_eq(selector, title_sel.as_str());
        proof {
            assert(es[i as int] == entries@[i as int]@);
            assert(m == matches_selector(selector@, i as int, es[i as int], default as int,
                prefix@));
        }
        let ghost prev = r@.map_values(|u: usize| u as int);
        if m {
            r.push(i);
            proof {
                assert(r@.map_values(|u: usize| u as int) =~= prev.push(i as int));
            }
        }
        i = i + 1;
    }
    r
}

/// Every character of a decimal representation is a digit.
pub proof fn lemma_dec_str_digits(n: nat)
    ensures
        dec_str(n).len() >= 1,
        forall|j: int|
            0 <= j < dec_str(n).len() ==> ('0' <= #[trigger] dec_str(n)[j] <= '9'),
    decreases n,
{
    if n < 10 {
        assert(dec_str(n)[0] == digit_char(n));
    } else {
        lemma_dec_str_digits(n / 10);
        assert(dec_str(n) == dec_str(n / 10).push(digit_char(n % 10)));
        assert forall|j: int| 0 <= j < dec_str(n).len() implies ('0' <= #[trigger] dec_str(
            n,
        )[j] <= '9') by {
            if j < dec_str(n / 10).len() {
                assert(dec_str(n)[j] == dec_str(n / 10)[j]);
            } else {
                assert(dec_str(n)[j] == digit_char(n % 10));
            }
        }
    }
}

/// The selector `ALL` names every record, in enumeration order.
pub proof fn lemma_select_all(es: Seq<BootEntryView>, default: int, prefix: Seq<char>)
    ensures
        selected_indices("ALL"@, es, default, prefix) == Seq::new(es.len(), |i: int| i),
{
    lemma_select_all_upto(es, default, prefix, es.len() as int);
}

proof fn lemma_select_all_upto(es: Seq<BootEntryView>, default: int, prefix: Seq<char>, n: int)
    requires
        n <= es.len(),
    ensures
        selected_upto("ALL"@, es, default, prefix, n) == Seq::new(
            (if n < 0 { 0 } else { n }) as nat,
            |i: int| i,
        ),
    decreases (if n < 0 { 0 } else { n }),
{
    if n <= 0 {
        assert(selected_upto("ALL"@, es, default, prefix, n) =~= Seq::new(
            (if n < 0 { 0 } else { n }) as nat,
            |i: int| i,
        ));
    } else {
        lemma_select_all_upto(es, default, prefix, n - 1);
        assert(matches_selector("ALL"@, n - 1, es[n - 1], default, prefix));
        assert(Seq::new((n - 1) as nat, |i: int| i).push(n - 1) =~= Seq::new(
            n as nat,
            |i: int| i,
        ));
    }
}

/// The indices a selector resolves to are exactly those whose records
/// match, each at most once.
pub proof fn lemma_selected_contains(
    sel: Seq<char>,
    es: Seq<BootEntryView>,
    default: int,
    prefix: Seq<char>,
    n: int,
)
    requires
        n <= es.len(),
    ensures
        forall|k: int|
            #[trigger] selected_upto(sel, es, default, prefix, n).contains(k) <==> (0 <= k < n
                && matches_selector(sel, k, es[k], default, prefix)),
    decreases (if n < 0 { 0 } else { n }),
{
    if n <= 0 {
    } else {
        lemma_selected_contains(sel, es, default, prefix, n - 1);
        let rest = selected_upto(sel, es, default, prefix, n - 1);
        let cur = selected_upto(sel, es, default, prefix, n);
        assert forall|k: int| #[trigger] cur.contains(k) implies (0 <= k < n
            && matches_selector(sel, k, es[k], default, prefix)) by {
            let m = choose|m: int| 0 <= m < cur.len() && cur[m] == k;
            if matches_selector(sel, n - 1, es[n - 1], default, prefix) {
                assert(cur == rest.push(n - 1));
                if m == cur.len() - 1 {
                    assert(k == n - 1);
                } else {
                    assert(rest[m] == k);
                    assert(rest.contains(k));
                }
            } else {
                assert(cur == rest);
                assert(rest.contains(k));
            }
        }
        assert forall|k: int| (0 <= k < n && matches_selector(sel, k, es[k], default, prefix))
            implies #[trigger] cur.contains(k) by {
            if k < n - 1 {
                assert(rest.contains(k));
                let m = choose|m: int| 0 <= m < rest.len() && rest[m] == k;
                if matches_selector(sel, n - 1, es[n - 1], default, prefix) {
                    assert(cur == rest.push(n - 1));
                    assert(cur[m] == k);
                } else {
                    assert(cur[m] == k);
                }
            } else {
                assert(matches_selector(sel, n - 1, es[n - 1], default, prefix));
                assert(cur == rest.push(n - 1));
                assert(cur[cur.len() - 1] == k);
            }
        }
    }
}

/// The selector `DEFAULT` names exactly the record at the default index,
/// provided no record's prefixed kernel path reads `DEFAULT`.
pub proof fn lemma_select_default(es: Seq<BootEntryView>, default: int, prefix: Seq<char>)
    requires
        0 <= default < es.len(),
        forall|k: int|
            0 <= k < es.len() ==> prefix + (#[trigger] es[k]).linux != "DEFAULT"@,
    ensures
        selected_indices("DEFAULT"@, es, default, prefix) == seq![default],
{
    reveal_strlit("DEFAULT");
    reveal_strlit("ALL");
    reveal_strlit("TITLE=");
    assert forall|k: int| 0 <= k < es.len() implies (matches_selector("DEFAULT"@, k, es[k],
        default, prefix) <==> k == default) by {
        lemma_dec_str_digits(k as nat);
        assert("DEFAULT"@ != dec_str(k as nat)) by {
            assert("DEFAULT"@[0] == 'D');
            assert(dec_str(k as nat)[0] <= '9');
        }
        assert("DEFAULT"@ != "ALL"@) by {
            assert("DEFAULT"@.len() == 7);
            assert("ALL"@.len() == 3);
        }
        assert("DEFAULT"@ != "TITLE="@ + es[k].title) by {
            assert(("TITLE="@ + es[k].title)[0] == 'T');
            assert("DEFAULT"@[0] == 'D');
        }
    }
    lemma_select_default_upto(es, default, prefix, es.len() as int);
}

proof fn lemma_select_default_upto(
    es: Seq<BootEntryView>,
    default: int,
    prefix: Seq<char>,
    n: int,
)
    requires
        0 <= default < es.len(),
        n <= es.len(),
        forall|k: int|
            0 <= k < es.len() ==> (matches_selector("DEFAULT"@, k, #[trigger] es[k], default,
                prefix) <==> k == default),
    ensures
        selected_upto("DEFAULT"@, es, default, prefix, n) == (if n > default {
            seq![default]
        } else {
            Seq::<int>::empty()
        }),
    decreases (if n < 0 { 0 } else { n }),
{
    if n <= 0 {
        assert(selected_upto("DEFAULT"@, es, default, prefix, n) =~= Seq::<int>::empty());
    } else {
        lemma_select_default_upto(es, default, prefix, n - 1);
        if n - 1 == default {
            assert(Seq::<int>::empty().push(default) =~= seq![default]);
        }
    }
}

/// The selector `TITLE=` plus a title names exactly the records whose
/// title equals it — no substring or superset matches — provided no
/// record's prefixed kernel path reads the same.
pub proof fn lemma_select_title(
    es: Seq<BootEntryView>,
    default: int,
    prefix: Seq<char>,
    title: Seq<char>,
)
    requires
        forall|k: int|
            0 <= k < es.len() ==> prefix + (#[trigger] es[k]).linux != "TITLE="@ + title,
    ensures
        forall|k: int|
            #[trigger] selected_indices("TITLE="@ + title, es, default, prefix).contains(k)
                <==> (0 <= k < es.len() && es[k].title == title),
{
    let sel = "TITLE="@ + title;
    reveal_strlit("DEFAULT");
    reveal_strlit("ALL");
    reveal_strlit("TITLE=");
    assert forall|k: int| 0 <= k < es.len() implies (matches_selector(sel, k, es[k], default,
        prefix) <==> es[k].title == title) by {
        lemma_dec_str_digits(k as nat);
        assert(sel[0] == 'T');
        assert(sel != dec_str(k as nat)) by {
            assert(dec_str(k as nat)[0] <= '9');
        }
        assert(sel != "ALL"@) by {
            assert("ALL"@[0] == 'A');
        }
        assert(sel != "DEFAULT"@) by {
            assert("DEFAULT"@[0] == 'D');
        }
        if sel == "TITLE="@ + es[k].title {
            assert(es[k].title =~= title) by {
                assert("TITLE="@.len() == 6);
                assert(("TITLE="@ + es[k].title).skip(6) =~= es[k].title);
                assert(("TITLE="@ + title).skip(6) =~= title);
            }
        }
    }
    lemma_selected_contains(sel, es, default, prefix, es.len() as int);
}

/// Resolved indices come out strictly increasing: enumeration order is
/// preserved and no record is named twice.
pub proof fn lemma_selected_ordered(
    sel: Seq<char>,
    es: Seq<BootEntryView>,
    default: int,
    prefix: Seq<char>,
    n: int,
)
    ensures
        forall|a: int|
            0 <= a < selected_upto(sel, es, default, prefix, n).len() ==> #[trigger]
                selected_upto(sel, es, default, prefix, n)[a] < n,
        forall|a: int, b: int|
            0 <= a < b < selected_upto(sel, es, default, prefix, n).len() ==> #[trigger]
                selected_upto(sel, es, default, prefix, n)[a] < #[trigger] selected_upto(
                sel,
                es,
                default,
                prefix,
                n,
            )[b],
    decreases (if n < 0 { 0 } else { n }),
{
    if n <= 0 {
    } else {
        lemma_selected_ordered(sel, es, default, prefix, n - 1);
        let rest = selected_upto(sel, es, default, prefix, n - 1);
        let cur = selected_upto(sel, es, default, prefix, n);
        if matches_selector(sel, n - 1, es[n - 1], default, prefix) {
            assert(cur == rest.push(n - 1));
            assert forall|a: int| 0 <= a < cur.len() implies #[trigger] cur[a] < n by {
                if a < cur.len() - 1 {
                    assert(cur[a] == rest[a]);
                } else {
                    assert(cur[a] == n - 1);
                }
            }
            assert forall|a: int, b: int| 0 <= a < b < cur.len() implies #[trigger] cur[a]
                < #[trigger] cur[b] by {
                if b < cur.len() - 1 {
                    assert(cur[a] == rest[a] && cur[b] == rest[b]);
                } else {
                    assert(cur[b] == n - 1);
                    assert(cur[a] == rest[a]);
                    assert(rest[a] < n - 1);
                }
            }
        }
    }
}

} // verus!
