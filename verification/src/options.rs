//! The options projector: splitting a boot-options string into its
//! non-root arguments and its root-device parameter, and applying an
//! add/remove delta to an argument list.

use vstd::prelude::*;
use crate::strtok::{
    split_sp, join_sp, split_spaces, join_spaces, str_eq, has_prefix, lemma_split_no_space,
    lemma_join_split,
};

verus! {

/// The tag that marks a root-device token.
pub open spec fn root_tag() -> Seq<char> {
    "root="@
}

/// Whether a token carries the root-device parameter.
pub open spec fn is_root_token(t: Seq<char>) -> bool {
    root_tag().is_prefix_of(t)
}

/// The device named by a root token, with the tag removed.
pub open spec fn root_value(t: Seq<char>) -> Seq<char> {
    t.skip(root_tag().len() as int)
}

/// The tokens that are not root tokens, in their original order.
pub open spec fn non_root_tokens(ts: Seq<Seq<char>>) -> Seq<Seq<char>>
    decreases ts.len(),
{
    if ts.len() == 0 {
        Seq::<Seq<char>>::empty()
    } else if is_root_token(ts.last()) {
        non_root_tokens(ts.drop_last())
    } else {
        non_root_tokens(ts.drop_last()).push(ts.last())
    }
}

/// The value of the last root token, or empty if there is none: when
/// several root tokens occur, the last one wins.
pub open spec fn last_root_value(ts: Seq<Seq<char>>) -> Seq<char>
    decreases ts.len(),
{
    if ts.len() == 0 {
        Seq::<char>::empty()
    } else if is_root_token(ts.last()) {
        root_value(ts.last())
    } else {
        last_root_value(ts.drop_last())
    }
}

/// The non-root arguments of an options string, rejoined with single
/// spaces in their original relative order.
pub open spec fn split_args(options: Seq<char>) -> Seq<char> {
    join_sp(non_root_tokens(split_sp(options)))
}

/// The root-device value of an options string, empty when no root token
/// occurs.
pub open spec fn split_root(options: Seq<char>) -> Seq<char> {
    last_root_value(split_sp(options))
}

/// Splits an options string into its non-root arguments and its
/// root-device value: tokens are separated by single spaces, every token
/// beginning with the root tag is removed from the argument list, and the
/// last such token's value is the root device.
pub fn separate_root_param(options: &str) -> (r: (String, String))
    ensures
        r.0@ == split_args(options@),
        r.1@ == split_root(options@),
{
    let tokens = split_spaces(options);
    let ghost ts = split_sp(options@);
    let mut args_tokens: Vec<String> = Vec::new();
    let mut root = String::new();
    let mut i: usize = 0;
    proof {
        assert(ts.take(0) =~= Seq::<Seq<char>>::empty());
        assert(args_tokens.deep_view() =~= non_root_tokens(ts.take(0)));
    }
    while i < tokens.len()
        invariant
            tokens.deep_view() == ts,
            tokens.deep_view().len() == tokens.len(),
            i <= tokens.len(),
            args_tokens.deep_view() == non_root_tokens(ts.take(i as int)),
            root@ == last_root_value(ts.take(i as int)),
        decreases tokens.len() - i,
    {
        let ghost prev_args = args_tokens.deep_view();
        proof {
            assert(ts.take(i + 1).drop_last() =~= ts.take(i as int));
            assert(ts.take(i + 1).last() == ts[i as int]);
        }
        if has_prefix(tokens[i].as_str(), "root=") {
            let tok = tokens[i].as_str();
            proof {
                reveal_strlit("root=");
                assert(root_tag().len() == 5);
                assert(tok@.len() >= 5);
            }
            let len = tok.unicode_len();
            root = String::from_str(tok.substring_char(5, len));
            proof {
                assert(root@ =~= root_value(ts[i as int]));
            }
        } else {
            args_tokens.push(String::from_str(tokens[i].as_str()));
            proof {
                assert(args_tokens.deep_view() =~= prev_args.push(ts[i as int]));
            }
        }
        i = i + 1;
    }
    proof {
        assert(ts.take(tokens.len() as int) =~= ts);
    }
    let args = join_spaces(&args_tokens);
    (args, root)
}

/// When no token of the options string is a root token, the root value is
/// empty and the argument string is the input itself, unchanged.
pub proof fn lemma_separate_root_none(options: Seq<char>)
    requires
        forall|k: int|
            0 <= k < split_sp(options).len() ==> !is_root_token(#[trigger] split_sp(options)[k]),
    ensures
        split_args(options) == options,
        split_root(options) == Seq::<char>::empty(),
{
    lemma_non_root_all(split_sp(options));
    lemma_last_root_none(split_sp(options));
    lemma_join_split(options);
}

/// When exactly one token, at position `i`, is a root token, the root
/// value is that token's value and the arguments are the remaining tokens
/// in their original order.
pub proof fn lemma_separate_root_single(options: Seq<char>, i: int)
    requires
        0 <= i < split_sp(options).len(),
        is_root_token(split_sp(options)[i]),
        forall|k: int|
            0 <= k < split_sp(options).len() && k != i ==> !is_root_token(
                #[trigger] split_sp(options)[k],
            ),
    ensures
        split_root(options) == root_value(split_sp(options)[i]),
        split_args(options) == join_sp(split_sp(options).remove(i)),
{
    lemma_last_root_at(split_sp(options), i);
    lemma_non_root_remove(split_sp(options), i);
}

/// When several root tokens occur, the last one wins: `i` is the position
/// of the last root token.
pub proof fn lemma_separate_root_last(options: Seq<char>, i: int)
    requires
        0 <= i < split_sp(options).len(),
        is_root_token(split_sp(options)[i]),
        forall|k: int|
            i < k < split_sp(options).len() ==> !is_root_token(#[trigger] split_sp(options)[k]),
    ensures
        split_root(options) == root_value(split_sp(options)[i]),
{
    lemma_last_root_at(split_sp(options), i);
}

/// The tokens with empty entries removed, in order.
pub open spec fn drop_empty(ts: Seq<Seq<char>>) -> Seq<Seq<char>>
    decreases ts.len(),
{
    if ts.len() == 0 {
        Seq::<Seq<char>>::empty()
    } else if ts.last().len() == 0 {
        drop_empty(ts.drop_last())
    } else {
        drop_empty(ts.drop_last()).push(ts.last())
    }
}

/// The tokens with every member of `rem` removed, in order.
pub open spec fn remove_tokens(ts: Seq<Seq<char>>, rem: Seq<Seq<char>>) -> Seq<Seq<char>>
    decreases ts.len(),
{
    if ts.len() == 0 {
        Seq::<Seq<char>>::empty()
    } else if rem.contains(ts.last()) {
        remove_tokens(ts.drop_last(), rem)
    } else {
        remove_tokens(ts.drop_last(), rem).push(ts.last())
    }
}

/// The tokens with each member of `adds` appended, in order, unless it is
/// already present.
pub open spec fn add_tokens(ts: Seq<Seq<char>>, adds: Seq<Seq<char>>) -> Seq<Seq<char>>
    decreases adds.len(),
{
    if adds.len() == 0 {
        ts
    } else if ts.contains(adds[0]) {
        add_tokens(ts, adds.skip(1))
    } else {
        add_tokens(ts.push(adds[0]), adds.skip(1))
    }
}

/// The options string after an update delta: empty tokens are dropped,
/// every token named by the remove list and not by the add list is
/// removed, and each token of the add list that is not already present is
/// appended, in order. A token standing in both lists is kept in place —
/// the add wins — which makes applying the same delta twice the same as
/// applying it once, as the update workflow demands.
pub open spec fn updated_options(options: Seq<char>, rem: Seq<char>, adds: Seq<char>) -> Seq<
    char,
> {
    join_sp(
        add_tokens(
            remove_tokens(
                drop_empty(split_sp(options)),
                remove_tokens(drop_empty(split_sp(rem)), drop_empty(split_sp(adds))),
            ),
            drop_empty(split_sp(adds)),
        ),
    )
}

/// Whether the token list of `v` holds a token equal to `t`.
fn vec_contains(v: &Vec<String>, t: &str) -> (r: bool)
    ensures
        r == v.deep_view().contains(t@),
{
    let mut i: usize = 0;
    while i < v.len()
        invariant
            i <= v.len(),
            v.deep_view().len() == v.len(),
            forall|j: int| 0 <= j < i ==> v.deep_view()[j] != t@,
        decreases v.len() - i,
    {
        if str_eq(v[i].as_str(), t) {
            assert(v.deep_view()[i as int] == t@);
            return true;
        }
        i = i + 1;
    }
    false
}

/// Applies an update delta to an options string: the tokens named by
/// `remove_args` alone are removed from the current argument list, then
/// each token of `add_args` that is not already present is appended. A
/// token named by both lists stays where it is, so re-running the same
/// delta changes nothing. Empty tokens are ignored throughout, so
/// surrounding or doubled spaces are normalized away.
pub fn update_options(options: &str, remove_args: &str, add_args: &str) -> (r: String)
    ensures
        r@ == updated_options(options@, remove_args@, add_args@),
{
    let cur = split_spaces(options);
    let rem = split_spaces(remove_args);
    let adds = split_spaces(add_args);
    let ghost cur_v = cur.deep_view();
    let ghost adds_v = adds.deep_view();
    let ghost rem_v = remove_tokens(drop_empty(rem.deep_view()), drop_empty(adds_v));

    let mut kept: Vec<String> = Vec::new();
    let mut i: usize = 0;
    proof {
        assert(cur_v.take(0) =~= Seq::<Seq<char>>::empty());
        assert(kept.deep_view() =~= remove_tokens(drop_empty(cur_v.take(0)), rem_v));
    }
    while i < cur.len()
        invariant
            cur.deep_view() == cur_v,
            cur_v.len() == cur.len(),
            adds.deep_view() == adds_v,
            rem_v == remove_tokens(drop_empty(rem.deep_view()), drop_empty(adds_v)),
            i <= cur.len(),
            kept.deep_view() == remove_tokens(drop_empty(cur_v.take(i as int)), rem_v),
        decreases cur.len() - i,
    {
        let ghost prev = kept.deep_view();
        proof {
            assert(cur_v.take(i + 1).drop_last() =~= cur_v.take(i as int));
            assert(cur_v.take(i + 1).last() == cur_v[i as int]);
            lemma_drop_empty_contains(rem.deep_view());
            lemma_drop_empty_contains(adds_v);
            lemma_remove_contains(drop_empty(rem.deep_view()), drop_empty(adds_v));
        }
        let tok = cur[i].as_str();
        proof {
            assert(tok@ == cur_v[i as int]);
        }
        if tok.unicode_len() > 0 && (!vec_contains(&rem, tok) || vec_contains(&adds, tok)) {
            kept.push(String::from_str(tok));
            proof {
                let p = drop_empty(cur_v.take(i as int));
                let t = cur_v[i as int];
                let de = drop_empty(cur_v.take(i + 1));
                assert(de == p.push(t));
                assert(!rem_v.contains(t));
                assert(de.last() == t);
                assert(de.drop_last() =~= p);
                assert(remove_tokens(de, rem_v) == remove_tokens(p, rem_v).push(t));
                assert(kept.deep_view() =~= prev.push(t));
            }
        } else {
            proof {
                let p = drop_empty(cur_v.take(i as int));
                let t = cur_v[i as int];
                if tok@.len() == 0 {
                    assert(drop_empty(cur_v.take(i + 1)) == p);
                } else {
                    assert(rem_v.contains(t));
                    let de = drop_empty(cur_v.take(i + 1));
                    assert(de == p.push(t));
                    assert(de.last() == t);
                    assert(de.drop_last() =~= p);
                    assert(remove_tokens(de, rem_v) == remove_tokens(p, rem_v));
                }
            }
        }
        i = i + 1;
    }
    proof {
        assert(cur_v.take(cur.len() as int) =~= cur_v);
    }
    let ghost base = remove_tokens(drop_empty(cur_v), rem_v);

    let mut j: usize = 0;
    proof {
        assert(adds_v.take(0) =~= Seq::<Seq<char>>::empty());
        assert(drop_empty(adds_v.take(0)) =~= Seq::<Seq<char>>::empty());
        assert(add_tokens(base, drop_empty(adds_v.take(0))) == base);
    }
    while j < adds.len()
        invariant
            adds.deep_view() == adds_v,
            adds_v.len() == adds.len(),
            j <= adds.len(),
            kept.deep_view() == add_tokens(base, drop_empty(adds_v.take(j as int))),
        decreases adds.len() - j,
    {
        let ghost prev = kept.deep_view();
        proof {
            assert(adds_v.take(j + 1).drop_last() =~= adds_v.take(j as int));
            assert(adds_v.take(j + 1).last() == adds_v[j as int]);
        }
        let tok = adds[j].as_str();
        if tok.unicode_len() > 0 && !vec_contains(&kept, tok) {
            kept.push(String::from_str(tok));
            proof {
                assert(kept.deep_view() =~= prev.push(tok@));
                lemma_add_tokens_snoc(base, drop_empty(adds_v.take(j as int)), adds_v[j as int]);
                assert(drop_empty(adds_v.take(j + 1)) == drop_empty(
                    adds_v.take(j as int),
                ).push(adds_v[j as int]));
            }
        } else {
            proof {
                if tok@.len() == 0 {
                    assert(drop_empty(adds_v.take(j + 1)) == drop_empty(adds_v.take(j as int)));
                } else {
                    lemma_add_tokens_snoc(base, drop_empty(adds_v.take(j as int)),
                        adds_v[j as int]);
                    assert(drop_empty(adds_v.take(j + 1)) == drop_empty(
                        adds_v.take(j as int),
                    ).push(adds_v[j as int]));
                }
            }
        }
        j = j + 1;
    }
    proof {
        assert(adds_v.take(adds.len() as int) =~= adds_v);
    }
    join_spaces(&kept)
}

/// A token is in the empties-dropped list exactly when it is a non-empty
/// token of the original.
proof fn lemma_drop_empty_contains(ts: Seq<Seq<char>>)
    ensures
        forall|x: Seq<char>|
            #[trigger] drop_empty(ts).contains(x) <==> ts.contains(x) && x.len() > 0,
    decreases ts.len(),
{
    if ts.len() == 0 {
    } else {
        lemma_drop_empty_contains(ts.drop_last());
        let dl = ts.drop_last();
        let de = drop_empty(ts);
        assert forall|x: Seq<char>| ts.contains(x) && x.len() > 0 implies #[trigger] drop_empty(
            ts,
        ).contains(x) by {
            let k = choose|k: int| 0 <= k < ts.len() && ts[k] == x;
            if k == ts.len() - 1 {
                assert(ts.last() == x);
                assert(de == drop_empty(dl).push(x));
                assert(de[de.len() - 1] == x);
            } else {
                assert(dl[k] == x);
                assert(dl.contains(x));
                assert(drop_empty(dl).contains(x));
                let m = choose|m: int|
                    0 <= m < drop_empty(dl).len() && drop_empty(dl)[m] == x;
                if ts.last().len() == 0 {
                    assert(de == drop_empty(dl));
                    assert(de[m] == x);
                } else {
                    assert(de == drop_empty(dl).push(ts.last()));
                    assert(de[m] == x);
                }
            }
        }
        assert forall|x: Seq<char>| #[trigger] drop_empty(ts).contains(x) implies ts.contains(x)
            && x.len() > 0 by {
            let m = choose|m: int| 0 <= m < de.len() && de[m] == x;
            if ts.last().len() == 0 {
                assert(de == drop_empty(dl));
                assert(drop_empty(dl).contains(x));
                assert(dl.contains(x) && x.len() > 0);
                let k = choose|k: int| 0 <= k < dl.len() && dl[k] == x;
                assert(ts[k] == x);
            } else {
                assert(de == drop_empty(dl).push(ts.last()));
                if m == de.len() - 1 {
                    assert(x == ts.last());
                    assert(ts[ts.len() - 1] == x);
                } else {
                    assert(drop_empty(dl)[m] == x);
                    assert(drop_empty(dl).contains(x));
                    assert(dl.contains(x) && x.len() > 0);
                    let k = choose|k: int| 0 <= k < dl.len() && dl[k] == x;
                    assert(ts[k] == x);
                }
            }
        }
    }
}

/// Appending one more add token unrolls the add fold from the right.
proof fn lemma_add_tokens_snoc(ts: Seq<Seq<char>>, adds: Seq<Seq<char>>, a: Seq<char>)
    ensures
        add_tokens(ts, adds.push(a)) == (if add_tokens(ts, adds).contains(a) {
            add_tokens(ts, adds)
        } else {
            add_tokens(ts, adds).push(a)
        }),
    decreases adds.len(),
{
    let e = adds.push(a).skip(1);
    if adds.len() == 0 {
        assert(adds.push(a)[0] == a);
        assert(e =~= Seq::<Seq<char>>::empty());
        assert(add_tokens(ts, e) == ts);
        assert(add_tokens(ts.push(a), e) == ts.push(a));
        assert(add_tokens(ts, adds) == ts);
        if ts.contains(a) {
            assert(add_tokens(ts, adds.push(a)) == add_tokens(ts, e));
        } else {
            assert(add_tokens(ts, adds.push(a)) == add_tokens(ts.push(a), e));
        }
    } else {
        assert(adds.push(a)[0] == adds[0]);
        assert(e =~= adds.skip(1).push(a));
        if ts.contains(adds[0]) {
            lemma_add_tokens_snoc(ts, adds.skip(1), a);
            assert(add_tokens(ts, adds.push(a)) == add_tokens(ts, e));
            assert(add_tokens(ts, e) == add_tokens(ts, adds.skip(1).push(a)));
            assert(add_tokens(ts, adds) == add_tokens(ts, adds.skip(1)));
        } else {
            lemma_add_tokens_snoc(ts.push(adds[0]), adds.skip(1), a);
            assert(add_tokens(ts, adds.push(a)) == add_tokens(ts.push(adds[0]), e));
            assert(add_tokens(ts.push(adds[0]), e) == add_tokens(
                ts.push(adds[0]),
                adds.skip(1).push(a),
            ));
            assert(add_tokens(ts, adds) == add_tokens(ts.push(adds[0]), adds.skip(1)));
        }
    }
}

/// A token survives removal exactly when it is a token of the original
/// list and is not named by the remove list.
proof fn lemma_remove_contains(ts: Seq<Seq<char>>, rem: Seq<Seq<char>>)
    ensures
        forall|x: Seq<char>|
            #[trigger] remove_tokens(ts, rem).contains(x) <==> ts.contains(x) && !rem.contains(
                x,
            ),
    decreases ts.len(),
{
    if ts.len() == 0 {
    } else {
        lemma_remove_contains(ts.drop_last(), rem);
        let dl = ts.drop_last();
        let rt = remove_tokens(ts, rem);
        assert forall|x: Seq<char>| ts.contains(x) && !rem.contains(x) implies #[trigger]
            remove_tokens(ts, rem).contains(x) by {
            let k = choose|k: int| 0 <= k < ts.len() && ts[k] == x;
            if k == ts.len() - 1 {
                assert(ts.last() == x);
                assert(rt == remove_tokens(dl, rem).push(x));
                assert(rt[rt.len() - 1] == x);
            } else {
                assert(dl[k] == x);
                assert(dl.contains(x));
                assert(remove_tokens(dl, rem).contains(x));
                let m = choose|m: int|
                    0 <= m < remove_tokens(dl, rem).len() && remove_tokens(dl, rem)[m] == x;
                if rem.contains(ts.last()) {
                    assert(rt == remove_tokens(dl, rem));
                    assert(rt[m] == x);
                } else {
                    assert(rt == remove_tokens(dl, rem).push(ts.last()));
                    assert(rt[m] == x);
                }
            }
        }
        assert forall|x: Seq<char>| #[trigger] remove_tokens(ts, rem).contains(x) implies
            ts.contains(x) && !rem.contains(x) by {
            let m = choose|m: int| 0 <= m < rt.len() && rt[m] == x;
            if rem.contains(ts.last()) {
                assert(rt == remove_tokens(dl, rem));
                assert(remove_tokens(dl, rem).contains(x));
                assert(dl.contains(x) && !rem.contains(x));
                let k = choose|k: int| 0 <= k < dl.len() && dl[k] == x;
                assert(ts[k] == x);
            } else {
                assert(rt == remove_tokens(dl, rem).push(ts.last()));
                if m == rt.len() - 1 {
                    assert(x == ts.last());
                    assert(ts[ts.len() - 1] == x);
                } else {
                    assert(remove_tokens(dl, rem)[m] == x);
                    assert(remove_tokens(dl, rem).contains(x));
                    assert(dl.contains(x) && !rem.contains(x));
                    let k = choose|k: int| 0 <= k < dl.len() && dl[k] == x;
                    assert(ts[k] == x);
                }
            }
        }
    }
}

/// A token is present after the add fold exactly when it was present
/// before or is named by the add list.
proof fn lemma_add_contains(ts: Seq<Seq<char>>, adds: Seq<Seq<char>>)
    ensures
        forall|x: Seq<char>|
            #[trigger] add_tokens(ts, adds).contains(x) <==> ts.contains(x) || adds.contains(x),
    decreases adds.len(),
{
    if adds.len() == 0 {
    } else {
        let tail = adds.skip(1);
        let p = ts.push(adds[0]);
        lemma_add_contains(ts, tail);
        lemma_add_contains(p, tail);
        assert(adds[0] == adds[0]);
        assert(adds.contains(adds[0]));
        assert forall|x: Seq<char>|
            #[trigger] add_tokens(ts, adds).contains(x) <==> ts.contains(x) || adds.contains(
                x,
            ) by {
            if adds.contains(x) {
                let k = choose|k: int| 0 <= k < adds.len() && adds[k] == x;
                if k > 0 {
                    assert(tail[k - 1] == x);
                    assert(tail.contains(x));
                }
            }
            if tail.contains(x) {
                let k = choose|k: int| 0 <= k < tail.len() && tail[k] == x;
                assert(adds[k + 1] == x);
                assert(adds.contains(x));
            }
            if ts.contains(adds[0]) {
                assert(add_tokens(ts, adds) == add_tokens(ts, tail));
                assert(add_tokens(ts, tail).contains(x) <==> ts.contains(x) || tail.contains(
                    x,
                ));
            } else {
                assert(add_tokens(ts, adds) == add_tokens(p, tail));
                assert(add_tokens(p, tail).contains(x) <==> p.contains(x) || tail.contains(x));
                if p.contains(x) {
                    let k = choose|k: int| 0 <= k < p.len() && p[k] == x;
                    if k < ts.len() {
                        assert(ts[k] == x);
                        assert(ts.contains(x));
                    } else {
                        assert(x == adds[0]);
                    }
                }
                if ts.contains(x) {
                    let k = choose|k: int| 0 <= k < ts.len() && ts[k] == x;
                    assert(p[k] == x);
                    assert(p.contains(x));
                }
                assert(p[ts.len() as int] == adds[0]);
                if x == adds[0] {
                    assert(p.contains(x));
                }
            }
        }
    }
}

/// Removal changes nothing when no token of the list is named by the
/// remove list.
proof fn lemma_remove_noop(ts: Seq<Seq<char>>, rem: Seq<Seq<char>>)
    requires
        forall|k: int| 0 <= k < ts.len() ==> !rem.contains(#[trigger] ts[k]),
    ensures
        remove_tokens(ts, rem) == ts,
    decreases ts.len(),
{
    if ts.len() == 0 {
        assert(remove_tokens(ts, rem) =~= ts);
    } else {
        assert(forall|k: int|
            0 <= k < ts.drop_last().len() ==> ts.drop_last()[k] == ts[k]);
        lemma_remove_noop(ts.drop_last(), rem);
        assert(!rem.contains(ts.last()));
        assert(ts.drop_last().push(ts.last()) =~= ts);
    }
}

/// The add fold changes nothing when every add token is already present.
proof fn lemma_add_noop(ts: Seq<Seq<char>>, adds: Seq<Seq<char>>)
    requires
        forall|k: int| 0 <= k < adds.len() ==> ts.contains(#[trigger] adds[k]),
    ensures
        add_tokens(ts, adds) == ts,
    decreases adds.len(),
{
    if adds.len() == 0 {
    } else {
        assert(ts.contains(adds[0]));
        assert(forall|k: int|
            0 <= k < adds.skip(1).len() ==> adds.skip(1)[k] == adds[k + 1]);
        lemma_add_noop(ts, adds.skip(1));
    }
}

/// Dropping empties changes nothing when every token is non-empty.
proof fn lemma_drop_empty_noop(ts: Seq<Seq<char>>)
    requires
        forall|k: int| 0 <= k < ts.len() ==> (#[trigger] ts[k]).len() > 0,
    ensures
        drop_empty(ts) == ts,
    decreases ts.len(),
{
    if ts.len() == 0 {
        assert(drop_empty(ts) =~= ts);
    } else {
        assert(forall|k: int|
            0 <= k < ts.drop_last().len() ==> ts.drop_last()[k] == ts[k]);
        lemma_drop_empty_noop(ts.drop_last());
        assert(ts.last().len() > 0);
        assert(ts.drop_last().push(ts.last()) =~= ts);
    }
}

/// Applying the same add/remove delta twice leaves the options string as
/// one application left it, whatever the delta.
pub proof fn lemma_update_idempotent(options: Seq<char>, rem: Seq<char>, adds: Seq<char>)
    ensures
        updated_options(updated_options(options, rem, adds), rem, adds) == updated_options(
            options,
            rem,
            adds,
        ),
{
    let c = drop_empty(split_sp(options));
    let a = drop_empty(split_sp(adds));
    let r = remove_tokens(drop_empty(split_sp(rem)), a);
    let base = remove_tokens(c, r);
    let t1 = add_tokens(base, a);
    let o2 = join_sp(t1);

    lemma_split_no_space(options);
    lemma_split_no_space(adds);
    lemma_drop_empty_contains(split_sp(options));
    lemma_drop_empty_contains(split_sp(adds));
    lemma_remove_contains(drop_empty(split_sp(rem)), a);
    lemma_remove_contains(c, r);
    lemma_add_contains(base, a);

    assert forall|x: Seq<char>| #[trigger] t1.contains(x) implies x.len() > 0 && !x.contains(
        ' ',
    ) by {
        if base.contains(x) {
            assert(c.contains(x));
            assert(split_sp(options).contains(x) && x.len() > 0);
            let k = choose|k: int|
                0 <= k < split_sp(options).len() && split_sp(options)[k] == x;
            assert(!split_sp(options)[k].contains(' '));
        } else {
            assert(a.contains(x));
            assert(split_sp(adds).contains(x) && x.len() > 0);
            let k = choose|k: int| 0 <= k < split_sp(adds).len() && split_sp(adds)[k] == x;
            assert(!split_sp(adds)[k].contains(' '));
        }
    }

    let c2 = drop_empty(split_sp(o2));
    if t1.len() == 0 {
        assert(o2 == Seq::<char>::empty());
        assert(split_sp(o2) == seq![Seq::<char>::empty()]);
        assert(split_sp(o2).last().len() == 0);
        assert(split_sp(o2).drop_last() =~= Seq::<Seq<char>>::empty());
        assert(c2 == drop_empty(split_sp(o2).drop_last()));
        assert(drop_empty(Seq::<Seq<char>>::empty()) == Seq::<Seq<char>>::empty());
        assert(c2 == Seq::<Seq<char>>::empty());
        assert(t1 =~= Seq::<Seq<char>>::empty());
    } else {
        assert forall|k: int| 0 <= k < t1.len() implies !(#[trigger] t1[k]).contains(' ') by {
            assert(t1.contains(t1[k]));
        }
        crate::strtok::lemma_split_join(t1);
        assert forall|k: int| 0 <= k < t1.len() implies (#[trigger] t1[k]).len() > 0 by {
            assert(t1.contains(t1[k]));
        }
        lemma_drop_empty_noop(t1);
        assert(c2 == t1);
    }

    assert forall|k: int| 0 <= k < t1.len() implies !r.contains(#[trigger] t1[k]) by {
        assert(t1.contains(t1[k]));
        if base.contains(t1[k]) {
            assert(!r.contains(t1[k]));
        } else {
            assert(a.contains(t1[k]));
            assert(!r.contains(t1[k]));
        }
    }
    lemma_remove_noop(t1, r);
    assert forall|k: int| 0 <= k < a.len() implies t1.contains(#[trigger] a[k]) by {
        assert(a.contains(a[k]));
    }
    lemma_add_noop(t1, a);
    assert(add_tokens(remove_tokens(c2, r), a) == t1);
}

proof fn lemma_non_root_all(ts: Seq<Seq<char>>)
    requires
        forall|k: int| 0 <= k < ts.len() ==> !is_root_token(#[trigger] ts[k]),
    ensures
        non_root_tokens(ts) == ts,
    decreases ts.len(),
{
    if ts.len() == 0 {
        assert(non_root_tokens(ts) =~= ts);
    } else {
        lemma_non_root_all(ts.drop_last());
        assert(ts.drop_last().push(ts.last()) =~= ts);
    }
}

proof fn lemma_last_root_none(ts: Seq<Seq<char>>)
    requires
        forall|k: int| 0 <= k < ts.len() ==> !is_root_token(#[trigger] ts[k]),
    ensures
        last_root_value(ts) == Seq::<char>::empty(),
    decreases ts.len(),
{
    if ts.len() == 0 {
    } else {
        lemma_last_root_none(ts.drop_last());
    }
}

proof fn lemma_last_root_at(ts: Seq<Seq<char>>, i: int)
    requires
        0 <= i < ts.len(),
        is_root_token(ts[i]),
        forall|k: int| i < k < ts.len() ==> !is_root_token(#[trigger] ts[k]),
    ensures
        last_root_value(ts) == root_value(ts[i]),
    decreases ts.len(),
{
    if i == ts.len() - 1 {
    } else {
        assert(!is_root_token(ts.last()));
        lemma_last_root_at(ts.drop_last(), i);
    }
}

proof fn lemma_non_root_remove(ts: Seq<Seq<char>>, i: int)
    requires
        0 <= i < ts.len(),
        is_root_token(ts[i]),
        forall|k: int| 0 <= k < ts.len() && k != i ==> !is_root_token(#[trigger] ts[k]),
    ensures
        non_root_tokens(ts) == ts.remove(i),
    decreases ts.len(),
{
    if i == ts.len() - 1 {
        lemma_non_root_all(ts.drop_last());
        assert(ts.remove(i) =~= ts.drop_last());
    } else {
        assert(!is_root_token(ts.last()));
        lemma_non_root_remove(ts.drop_last(), i);
        assert(ts.drop_last().remove(i).push(ts.last()) =~= ts.remove(i));
    }
}

} // verus!
