//! MIME-type helpers: the single source of truth for "is this text?"
//! and "which offered types should we request?".

use vstd::prelude::*;

use crate::config::{
    MAX_MIMES_PER_SELECTION, PREFERRED_TEXT_MIMES, SUPPORTED_BINARY_MIMES, lemma_mime_lists,
    preferred_text_mimes, supported_binary_mimes,
};
use crate::text::{has_prefix, starts_with, str_eq};

verus! {

/// The character sequences of a sequence of strings.
pub open spec fn views(v: Seq<String>) -> Seq<Seq<char>> {
    v.map_values(|s: String| s@)
}

/// True for MIME types we can preview as text: the legacy X11-style atoms
/// `TEXT`, `STRING`, `UTF8_STRING`, and everything under `text/`.
pub open spec fn is_text_mime_spec(m: Seq<char>) -> bool {
    ||| m == "TEXT"@
    ||| m == "STRING"@
    ||| m == "UTF8_STRING"@
    ||| m == "text/plain"@
    ||| has_prefix(m, "text/plain;"@)
    ||| has_prefix(m, "text/"@)
}

/// True for MIME types we can preview as text.
///
/// `TEXT`, `STRING`, `UTF8_STRING` are legacy X11-style text atoms.
pub fn is_text_mime(mime: &str) -> (b: bool)
    ensures
        b == is_text_mime_spec(mime@),
{
    str_eq(mime, "TEXT") || str_eq(mime, "STRING") || str_eq(mime, "UTF8_STRING") || str_eq(
        mime,
        "text/plain",
    ) || starts_with(mime, "text/plain;") || starts_with(mime, "text/")
}

/// Append `m` unless it is already present.
pub open spec fn add_unique(acc: Seq<Seq<char>>, m: Seq<char>) -> Seq<Seq<char>> {
    if acc.contains(m) {
        acc
    } else {
        acc.push(m)
    }
}

/// Step 1: the preferred text types that were offered, in preference order.
pub open spec fn pick_preferred(offered: Seq<Seq<char>>) -> Seq<Seq<char>> {
    preferred_text_mimes().fold_left(
        Seq::<Seq<char>>::empty(),
        |acc: Seq<Seq<char>>, p: Seq<char>|
            if offered.contains(p) {
                add_unique(acc, p)
            } else {
                acc
            },
    )
}

/// Step 2: any other offered text type, in offer order.
pub open spec fn pick_text(offered: Seq<Seq<char>>, acc: Seq<Seq<char>>) -> Seq<Seq<char>> {
    offered.fold_left(
        acc,
        |a: Seq<Seq<char>>, m: Seq<char>|
            if is_text_mime_spec(m) {
                add_unique(a, m)
            } else {
                a
            },
    )
}

/// Step 3: the supported binary types that were offered, in list order.
pub open spec fn pick_binary(offered: Seq<Seq<char>>, acc: Seq<Seq<char>>) -> Seq<Seq<char>> {
    supported_binary_mimes().fold_left(
        acc,
        |a: Seq<Seq<char>>, s: Seq<char>|
            if offered.contains(s) {
                add_unique(a, s)
            } else {
                a
            },
    )
}

/// The MIME types to request, in priority order: preferred text types, then
/// other text types, then supported binary types, without repeats, cut to
/// `MAX_MIMES_PER_SELECTION`.
pub open spec fn pick_mimes_spec(offered: Seq<Seq<char>>) -> Seq<Seq<char>> {
    let all = pick_binary(offered, pick_text(offered, pick_preferred(offered)));
    if all.len() <= MAX_MIMES_PER_SELECTION {
        all
    } else {
        all.take(MAX_MIMES_PER_SELECTION as int)
    }
}

/// What every picked list satisfies: no repeats, only offered types, and only
/// text or supported binary types.
pub open spec fn well_picked(offered: Seq<Seq<char>>, acc: Seq<Seq<char>>) -> bool {
    &&& acc.no_duplicates()
    &&& forall|i: int| 0 <= i < acc.len() ==> offered.contains(#[trigger] acc[i])
    &&& forall|i: int|
        0 <= i < acc.len() ==> is_text_mime_spec(#[trigger] acc[i])
            || supported_binary_mimes().contains(acc[i])
}

/// Whether `list` holds a string equal to `m`.
pub fn contains_str(list: &Vec<String>, m: &str) -> (r: bool)
    ensures
        r == views(list@).contains(m@),
{
    let mut i: usize = 0;
    while i < list.len()
        invariant
            0 <= i <= list@.len(),
            forall|j: int| 0 <= j < i ==> list@[j]@ != m@,
        decreases list@.len() - i,
    {
        if str_eq(list[i].as_str(), m) {
            assert(views(list@)[i as int] == m@);
            return true;
        }
        i = i + 1;
    }
    proof {
        if views(list@).contains(m@) {
            let k = choose|k: int| 0 <= k < views(list@).len() && views(list@)[k] == m@;
            assert(list@[k]@ == m@);
        }
    }
    false
}

/// The position of the first string of `list` equal to `m`.
fn find_str(list: &[String], m: &str) -> (r: Option<usize>)
    ensures
        match r {
            Some(k) => k < list@.len() && list@[k as int]@ == m@,
            None => !views(list@).contains(m@),
        },
{
    let mut i: usize = 0;
    while i < list.len()
        invariant
            0 <= i <= list@.len(),
            forall|j: int| 0 <= j < i ==> list@[j]@ != m@,
        decreases list@.len() - i,
    {
        if str_eq(list[i].as_str(), m) {
            return Some(i);
        }
        i = i + 1;
    }
    proof {
        if views(list@).contains(m@) {
            let k = choose|k: int| 0 <= k < views(list@).len() && views(list@)[k] == m@;
            assert(list@[k]@ == m@);
        }
    }
    None
}

proof fn lemma_add_unique_well_picked(offered: Seq<Seq<char>>, acc: Seq<Seq<char>>, m: Seq<char>)
    requires
        well_picked(offered, acc),
        offered.contains(m),
        is_text_mime_spec(m) || supported_binary_mimes().contains(m),
    ensures
        well_picked(offered, add_unique(acc, m)),
{
    if !acc.contains(m) {
        let r = acc.push(m);
        assert(r.no_duplicates()) by {
            assert forall|i: int, j: int| 0 <= i < r.len() && 0 <= j < r.len() && i != j implies r[i]
                != r[j] by {
                if i == acc.len() as int {
                    assert(acc[j] == r[j]);
                } else if j == acc.len() as int {
                    assert(acc[i] == r[i]);
                }
            }
        }
        assert forall|i: int| 0 <= i < r.len() implies offered.contains(#[trigger] r[i]) by {
            if i < acc.len() {
                assert(r[i] == acc[i]);
            }
        }
        assert forall|i: int| 0 <= i < r.len() implies is_text_mime_spec(#[trigger] r[i])
            || supported_binary_mimes().contains(r[i]) by {
            if i < acc.len() {
                assert(r[i] == acc[i]);
            }
        }
    }
}

/// Pick which offered MIME types to actually request, in priority order:
///
/// 1. Preferred text types, exact match, in order.
/// 2. Any other `text/*` type (e.g. `text/csv`, unusual charset casing).
/// 3. Supported binary types.
///
/// The result is truncated to `MAX_MIMES_PER_SELECTION` to bound pipe usage;
/// it never repeats a type, holds only offered types, and only text or
/// supported binary ones.
pub fn pick_mimes(mime_types: &[String]) -> (picked: Vec<String>)
    ensures
        views(picked@) == pick_mimes_spec(views(mime_types@)),
        picked@.len() <= MAX_MIMES_PER_SELECTION,
        well_picked(views(mime_types@), views(picked@)),
{
    let ghost offered = views(mime_types@);
    let mut picked: Vec<String> = Vec::new();
    proof {
        lemma_mime_lists();
        assert(views(picked@) =~= Seq::<Seq<char>>::empty());
    }

    let mut i: usize = 0;
    while i < PREFERRED_TEXT_MIMES.len()
        invariant
            offered == views(mime_types@),
            0 <= i <= preferred_text_mimes().len(),
            PREFERRED_TEXT_MIMES@.len() == preferred_text_mimes().len(),
            forall|k: int|
                0 <= k < preferred_text_mimes().len() ==> #[trigger] PREFERRED_TEXT_MIMES@[k]@
                    == preferred_text_mimes()[k],
            views(picked@) == preferred_text_mimes().take(i as int).fold_left(
                Seq::<Seq<char>>::empty(),
                |acc: Seq<Seq<char>>, p: Seq<char>|
                    if offered.contains(p) {
                        add_unique(acc, p)
                    } else {
                        acc
                    },
            ),
            well_picked(offered, views(picked@)),
        decreases preferred_text_mimes().len() - i,
    {
        let preferred = PREFERRED_TEXT_MIMES[i];
        let ghost before = views(picked@);
        proof {
            assert(preferred_text_mimes().take(i + 1).drop_last() =~= preferred_text_mimes().take(
                i as int,
            ));
        }
        match find_str(mime_types, preferred) {
            Some(k) => {
                if !contains_str(&picked, mime_types[k].as_str()) {
                    picked.push(mime_types[k].clone());
                    assert(views(picked@) =~= before.push(preferred@));
                }
                proof {
                    assert(offered[k as int] == preferred@);
                    assert(is_text_mime_spec(preferred@)) by {
                        reveal_strlit("text/plain;charset=utf-8");
                        reveal_strlit("text/plain;");
                        reveal_strlit("text/plain");
                        reveal_strlit("text/markdown");
                        reveal_strlit("text/html");
                        reveal_strlit("text/uri-list");
                        reveal_strlit("text/");
                        reveal_strlit("TEXT");
                        reveal_strlit("STRING");
                        reveal_strlit("UTF8_STRING");
                        assert(preferred@ == preferred_text_mimes()[i as int]);
                        if i <= 4 {
                            assert(preferred@.take(5) =~= "text/"@);
                        }
                    }
                    lemma_add_unique_well_picked(offered, before, preferred@);
                }
            },
            None => {},
        }
        i = i + 1;
    }
    proof {
        assert(preferred_text_mimes().take(preferred_text_mimes().len() as int)
            =~= preferred_text_mimes());
    }
    let ghost after_preferred = views(picked@);

    let mut j: usize = 0;
    while j < mime_types.len()
        invariant
            offered == views(mime_types@),
            0 <= j <= mime_types@.len(),
            after_preferred == pick_preferred(offered),
            views(picked@) == offered.take(j as int).fold_left(
                after_preferred,
                |a: Seq<Seq<char>>, m: Seq<char>|
                    if is_text_mime_spec(m) {
                        add_unique(a, m)
                    } else {
                        a
                    },
            ),
            well_picked(offered, views(picked@)),
        decreases mime_types@.len() - j,
    {
        let ghost before = views(picked@);
        proof {
            assert(offered.take(j + 1).drop_last() =~= offered.take(j as int));
            assert(offered.take(j + 1).last() == mime_types@[j as int]@);
        }
        let m = &mime_types[j];
        if is_text_mime(m.as_str()) && !contains_str(&picked, m.as_str()) {
            picked.push(m.clone());
            assert(views(picked@) =~= before.push(m@));
        }
        proof {
            if is_text_mime_spec(m@) {
                assert(offered[j as int] == m@);
                lemma_add_unique_well_picked(offered, before, m@);
            }
        }
        j = j + 1;
    }
    proof {
        assert(offered.take(mime_types@.len() as int) =~= offered);
    }
    let ghost after_text = views(picked@);

    let mut b: usize = 0;
    while b < SUPPORTED_BINARY_MIMES.len()
        invariant
            offered == views(mime_types@),
            0 <= b <= supported_binary_mimes().len(),
            SUPPORTED_BINARY_MIMES@.len() == supported_binary_mimes().len(),
            forall|k: int|
                0 <= k < supported_binary_mimes().len() ==> #[trigger] SUPPORTED_BINARY_MIMES@[k]@
                    == supported_binary_mimes()[k],
            after_text == pick_text(offered, pick_preferred(offered)),
            views(picked@) == supported_binary_mimes().take(b as int).fold_left(
                after_text,
                |a: Seq<Seq<char>>, s: Seq<char>|
                    if offered.contains(s) {
                        add_unique(a, s)
                    } else {
                        a
                    },
            ),
            well_picked(offered, views(picked@)),
        decreases supported_binary_mimes().len() - b,
    {
        let supported = SUPPORTED_BINARY_MIMES[b];
        let ghost before = views(picked@);
        proof {
            assert(supported_binary_mimes().take(b + 1).drop_last()
                =~= supported_binary_mimes().take(b as int));
        }
        match find_str(mime_types, supported) {
            Some(k) => {
                if !contains_str(&picked, mime_types[k].as_str()) {
                    picked.push(mime_types[k].clone());
                    assert(views(picked@) =~= before.push(supported@));
                }
                proof {
                    assert(offered[k as int] == supported@);
                    assert(supported_binary_mimes().contains(supported@)) by {
                        assert(supported_binary_mimes()[b as int] == supported@);
                    }
                    lemma_add_unique_well_picked(offered, before, supported@);
                }
            },
            None => {},
        }
        b = b + 1;
    }
    proof {
        assert(supported_binary_mimes().take(supported_binary_mimes().len() as int)
            =~= supported_binary_mimes());
    }
    let ghost all = views(picked@);
    if picked.len() > MAX_MIMES_PER_SELECTION {
        picked.truncate(MAX_MIMES_PER_SELECTION);
        proof {
            assert(views(picked@) =~= all.take(MAX_MIMES_PER_SELECTION as int));
            let r = views(picked@);
            assert forall|x: int, y: int| 0 <= x < r.len() && 0 <= y < r.len() && x != y implies r[x]
                != r[y] by {
                assert(r[x] == all[x] && r[y] == all[y]);
            }
            assert forall|x: int| 0 <= x < r.len() implies offered.contains(#[trigger] r[x]) by {
                assert(r[x] == all[x]);
            }
            assert forall|x: int| 0 <= x < r.len() implies is_text_mime_spec(#[trigger] r[x])
                || supported_binary_mimes().contains(r[x]) by {
                assert(r[x] == all[x]);
            }
        }
    }
    picked
}

/// A fold whose every step keeps the list or appends the item keeps the
/// starting list as a prefix.
proof fn lemma_fold_extends(
    s: Seq<Seq<char>>,
    acc: Seq<Seq<char>>,
    f: spec_fn(Seq<Seq<char>>, Seq<char>) -> Seq<Seq<char>>,
)
    requires
        forall|a: Seq<Seq<char>>, m: Seq<char>| #[trigger] f(a, m) == a || f(a, m) == a.push(m),
    ensures
        s.fold_left(acc, f).len() >= acc.len(),
        s.fold_left(acc, f).take(acc.len() as int) == acc,
    decreases s.len(),
{
    if s.len() > 0 {
        lemma_fold_extends(s.drop_last(), acc, f);
        let prev = s.drop_last().fold_left(acc, f);
        assert(s.fold_left(acc, f) == f(prev, s.last()));
        assert(f(prev, s.last()).take(acc.len() as int) =~= prev.take(acc.len() as int));
    } else {
        assert(acc.take(acc.len() as int) =~= acc);
    }
}

/// The requested MIME types keep their priority: the result is the first
/// `MAX_MIMES_PER_SELECTION` of the full priority-ordered list (preferred
/// text types, other text types, supported binary types), all of it when it
/// is shorter.
pub proof fn law_pick_is_priority_prefix(offered: Seq<Seq<char>>)
    ensures
        ({
            let all = pick_binary(offered, pick_text(offered, pick_preferred(offered)));
            let r = pick_mimes_spec(offered);
            &&& r.len() == if all.len() <= MAX_MIMES_PER_SELECTION {
                all.len()
            } else {
                MAX_MIMES_PER_SELECTION as nat
            }
            &&& forall|i: int| 0 <= i < r.len() ==> #[trigger] r[i] == all[i]
        }),
{
}

/// No preferred type ranking before `i` was offered, so none is picked.
proof fn lemma_none_preferred_before(offered: Seq<Seq<char>>, i: int)
    requires
        0 <= i <= preferred_text_mimes().len(),
        forall|j: int| 0 <= j < i ==> !offered.contains(#[trigger] preferred_text_mimes()[j]),
    ensures
        preferred_text_mimes().take(i).fold_left(
            Seq::<Seq<char>>::empty(),
            |acc: Seq<Seq<char>>, p: Seq<char>|
                if offered.contains(p) {
                    add_unique(acc, p)
                } else {
                    acc
                },
        ) == Seq::<Seq<char>>::empty(),
    decreases i,
{
    let pl = preferred_text_mimes();
    if i > 0 {
        lemma_none_preferred_before(offered, i - 1);
        assert(pl.take(i).drop_last() =~= pl.take(i - 1));
        assert(pl.take(i).last() == pl[i - 1]);
    } else {
        assert(pl.take(0) =~= Seq::<Seq<char>>::empty());
    }
}

/// The most preferred text type that was offered is always requested, and
/// requested first.
pub proof fn law_first_preferred_requested_first(offered: Seq<Seq<char>>, k: int)
    requires
        0 <= k < preferred_text_mimes().len(),
        offered.contains(preferred_text_mimes()[k]),
        forall|j: int| 0 <= j < k ==> !offered.contains(#[trigger] preferred_text_mimes()[j]),
    ensures
        pick_mimes_spec(offered).len() > 0,
        pick_mimes_spec(offered)[0] == preferred_text_mimes()[k],
{
    let pl = preferred_text_mimes();
    let fp = |acc: Seq<Seq<char>>, p: Seq<char>|
        if offered.contains(p) {
            add_unique(acc, p)
        } else {
            acc
        };
    let ft = |a: Seq<Seq<char>>, m: Seq<char>|
        if is_text_mime_spec(m) {
            add_unique(a, m)
        } else {
            a
        };
    let fb = |a: Seq<Seq<char>>, s: Seq<char>|
        if offered.contains(s) {
            add_unique(a, s)
        } else {
            a
        };
    // Nothing is picked before the `k`-th preferred type.
    lemma_none_preferred_before(offered, k);
    assert(pl.take(k + 1).drop_last() =~= pl.take(k));
    assert(pl.take(k + 1).last() == pl[k]);
    let start = pl.take(k + 1).fold_left(Seq::<Seq<char>>::empty(), fp);
    assert(start =~= seq![pl[k]]);
    pl.lemma_fold_left_split(Seq::<Seq<char>>::empty(), fp, k + 1);
    assert(pl.subrange(0, k + 1) =~= pl.take(k + 1));
    lemma_fold_extends(pl.subrange(k + 1, pl.len() as int), start, fp);
    let pre = pick_preferred(offered);
    assert(pre == pl.fold_left(Seq::<Seq<char>>::empty(), fp));
    assert(pre.take(1)[0] == pre[0]);
    lemma_fold_extends(offered, pre, ft);
    let txt = pick_text(offered, pre);
    assert(txt == offered.fold_left(pre, ft));
    assert(txt.take(pre.len() as int)[0] == txt[0]);
    lemma_fold_extends(supported_binary_mimes(), txt, fb);
    let all = pick_binary(offered, txt);
    assert(all == supported_binary_mimes().fold_left(txt, fb));
    assert(all.take(txt.len() as int)[0] == all[0]);
    law_pick_is_priority_prefix(offered);
}

} // verus!
