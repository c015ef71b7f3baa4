//! The panel's decision logic: which identity to load shortcuts for, how
//! the shortcut list is filtered by the search box, and small text helpers
//! for single-line display.
//!
//! Only decisions and text transformations live here; layout and widgets
//! stay with the host GUI.

use vstd::prelude::*;

use crate::text::contains_seq;
use crate::text::chars_contains;
use crate::text::chars_string;
use crate::text::lower_of;
use crate::text::lower_str;
use crate::text::norm_of;
use crate::text::normalize;
use crate::text::seq_lt;
use crate::text::chars_lt;
use crate::text::str_chars;
use crate::text::trim_of;
use crate::text::trim_str;
use crate::focus_tracker::placeholder_identity;

verus! {

/// One message the panel reacts to.
#[derive(Debug, Clone)]
pub enum Message {
    AppIdChanged(String),
    SearchChanged(String),
    Tick,
    ToggleSettings,
    CloseSettings,
    GoHome,
    QuitRequested,
}

/// One parsed shortcut entry as read out of a document: the key combination,
/// its description, and an optional category.
pub struct ShortcutEntry {
    pub keys: String,
    pub desc: String,
    pub category: Option<String>,
}

/// The mathematical view of [`ShortcutEntry`].
pub ghost struct ShortcutEntryView {
    pub keys: Seq<char>,
    pub desc: Seq<char>,
    pub category: Option<Seq<char>>,
}

impl DeepView for ShortcutEntry {
    type V = ShortcutEntryView;

    open spec fn deep_view(&self) -> ShortcutEntryView {
        ShortcutEntryView {
            keys: self.keys@,
            desc: self.desc@,
            category: self.category.deep_view(),
        }
    }
}

/// The category every uncategorized entry falls into.
pub open spec fn default_category() -> Seq<char> {
    "General"@
}

/// One display item for one entry: keys, description, and the category with
/// the default filled in.
pub open spec fn item_of_entry(e: ShortcutEntryView) -> (Seq<char>, Seq<char>, Seq<char>) {
    (
        e.keys,
        e.desc,
        match e.category {
            Some(c) => c,
            None => default_category(),
        },
    )
}

/// Turns parsed shortcut entries into display items, defaulting the
/// category of entries that declare none.
pub fn shortcuts_to_items(entries: Vec<ShortcutEntry>) -> (r: Vec<(String, String, String)>)
    ensures
        r.deep_view() == entries.deep_view().map_values(|e: ShortcutEntryView| item_of_entry(e)),
{
    let mut out: Vec<(String, String, String)> = Vec::new();
    let n = entries.len();
    let mut i: usize = 0;
    while i < n
        invariant
            n == entries@.len(),
            i <= n,
            out@.len() == i,
            forall|j: int|
                0 <= j < i ==> (#[trigger] out@[j]).deep_view() == item_of_entry(
                    entries@[j].deep_view(),
                ),
        decreases n - i,
    {
        let e = &entries[i];
        let cat = match &e.category {
            Some(c) => c.clone(),
            None => "General".to_owned(),
        };
        out.push((e.keys.clone(), e.desc.clone(), cat));
        i = i + 1;
    }
    proof {
        let dv = entries.deep_view();
        let mv = dv.map_values(|e: ShortcutEntryView| item_of_entry(e));
        assert forall|j: int| 0 <= j < n implies out.deep_view()[j] == mv[j] by {
            assert(out.deep_view()[j] == out@[j].deep_view());
            assert(dv[j] == entries@[j].deep_view());
        }
        assert(out.deep_view() =~= mv);
    }
    out
}

/// Whether a display item survives the search filter: the query occurs in
/// its lowercased keys, description or category.
pub open spec fn item_matches(it: (Seq<char>, Seq<char>, Seq<char>), q: Seq<char>) -> bool {
    ||| contains_seq(lower_of(it.0), q)
    ||| contains_seq(lower_of(it.1), q)
    ||| contains_seq(lower_of(it.2), q)
}

/// What the search box keeps: everything when the normalized query is
/// empty, otherwise the items whose lowercased fields contain it.
pub open spec fn filter_items_spec(
    items: Seq<(Seq<char>, Seq<char>, Seq<char>)>,
    q: Seq<char>,
) -> Seq<(Seq<char>, Seq<char>, Seq<char>)> {
    if q.len() == 0 {
        items
    } else {
        items.filter(|it: (Seq<char>, Seq<char>, Seq<char>)| item_matches(it, q))
    }
}

fn clone_item(it: &(String, String, String)) -> (r: (String, String, String))
    ensures
        r.deep_view() == it.deep_view(),
{
    (it.0.clone(), it.1.clone(), it.2.clone())
}

fn item_match(it: &(String, String, String), qc: &Vec<char>) -> (r: bool)
    ensures
        r == item_matches(it.deep_view(), qc@),
{
    let k = lower_str(it.0.as_str());
    let kc = str_chars(k.as_str());
    if chars_contains(&kc, qc) {
        return true;
    }
    let d = lower_str(it.1.as_str());
    let dc = str_chars(d.as_str());
    if chars_contains(&dc, qc) {
        return true;
    }
    let c = lower_str(it.2.as_str());
    let cc = str_chars(c.as_str());
    chars_contains(&cc, qc)
}

/// Filters display items by the search box text: the query is normalized,
/// an empty query keeps everything, and otherwise an item stays when any of
/// its lowercased fields contains the query.
pub fn filter_items(items: &Vec<(String, String, String)>, search: &str) -> (r: Vec<
    (String, String, String),
>)
    ensures
        r.deep_view() == filter_items_spec(items.deep_view(), norm_of(search@)),
{
    let q = normalize(search);
    let qc = str_chars(q.as_str());
    let n = items.len();
    let mut out: Vec<(String, String, String)> = Vec::new();
    if qc.len() == 0 {
        let mut i: usize = 0;
        while i < n
            invariant
                n == items@.len(),
                i <= n,
                out@.len() == i,
                forall|j: int|
                    0 <= j < i ==> (#[trigger] out@[j]).deep_view() == items@[j].deep_view(),
            decreases n - i,
        {
            let it = clone_item(&items[i]);
            out.push(it);
            i = i + 1;
        }
        proof {
            assert forall|j: int| 0 <= j < n implies out.deep_view()[j] == items.deep_view()[
                j
            ] by {
                assert(out.deep_view()[j] == out@[j].deep_view());
                assert(items.deep_view()[j] == items@[j].deep_view());
            }
            assert(out.deep_view() =~= items.deep_view());
        }
        return out;
    }
    let ghost pred = |it: (Seq<char>, Seq<char>, Seq<char>)| item_matches(it, qc@);
    let ghost mut acc: Seq<(Seq<char>, Seq<char>, Seq<char>)> = Seq::empty();
    proof {
        reveal(Seq::filter);
        assert(items.deep_view().subrange(0, 0).filter(pred) =~= Seq::<
            (Seq<char>, Seq<char>, Seq<char>),
        >::empty());
    }
    let mut i: usize = 0;
    while i < n
        invariant
            n == items@.len(),
            i <= n,
            qc@ == norm_of(search@),
            pred == (|it: (Seq<char>, Seq<char>, Seq<char>)| item_matches(it, qc@)),
            acc == items.deep_view().subrange(0, i as int).filter(pred),
            out@.len() == acc.len(),
            forall|j: int| 0 <= j < acc.len() ==> (#[trigger] out@[j]).deep_view() == acc[j],
        decreases n - i,
    {
        let ghost prefix = items.deep_view().subrange(0, i as int);
        let it = &items[i];
        if item_match(it, &qc) {
            out.push(clone_item(it));
            proof {
                acc = acc.push(items@[i as int].deep_view());
            }
        }
        i = i + 1;
        proof {
            reveal(Seq::filter);
            let prefix2 = items.deep_view().subrange(0, i as int);
            assert(prefix2.drop_last() =~= prefix);
            assert(prefix2.last() == items.deep_view()[i - 1]);
            assert(items.deep_view()[i - 1] == items@[i - 1].deep_view());
            if pred(prefix2.last()) {
                assert(prefix2.filter(pred) == prefix.filter(pred).push(prefix2.last()));
            } else {
                assert(prefix2.filter(pred) == prefix.filter(pred));
            }
        }
    }
    proof {
        assert(items.deep_view().subrange(0, n as int) =~= items.deep_view());
        assert forall|j: int| 0 <= j < acc.len() implies out.deep_view()[j] == acc[j] by {
            assert(out.deep_view()[j] == out@[j].deep_view());
        }
        assert(out.deep_view() =~= acc);
    }
    out
}

/// Decides whether a focus notification switches the panel to a new
/// identity. The panel's own identity is ignored; so are identities that
/// trim to nothing and the placeholder for an unknown window; an identity
/// equal to the current target is ignored as well. Otherwise the trimmed
/// identity is the new target.
pub fn next_focus_target(latest: &String, own_id: &str, last_target: &Option<String>) -> (r:
    Option<String>)
    ensures
        r matches Some(t) ==> t@ == trim_of(latest@),
        (r is Some) == (latest@ != own_id@ && trim_of(latest@).len() != 0 && trim_of(latest@)
            != placeholder_identity() && (match last_target {
            Some(prev) => prev@ != trim_of(latest@),
            None => true,
        })),
{
    let own = own_id.to_owned();
    if latest.eq(&own) {
        return None;
    }
    let trimmed = trim_str(latest.as_str());
    if trimmed.as_str().is_empty() {
        return None;
    }
    let unknown = "unknown".to_owned();
    if trimmed.eq(&unknown) {
        return None;
    }
    match last_target {
        Some(prev) => {
            if prev.eq(&trimmed) {
                return None;
            }
        },
        None => {},
    }
    Some(trimmed)
}

/// What single-line truncation yields for trimmed text `t`: nothing on a
/// zero budget, the text itself when it fits, and otherwise its first
/// `max - 1` characters with an ellipsis appended.
pub open spec fn ellipsize_spec(t: Seq<char>, max: nat) -> Seq<char> {
    if max == 0 {
        Seq::empty()
    } else if t.len() <= max {
        t
    } else {
        t.subrange(0, max as int - 1).push('\u{2026}')
    }
}

/// Truncates text to a single line of at most `max_chars` characters,
/// trimming it first and ending with an ellipsis when it had to be cut.
pub fn ellipsize(s: &str, max_chars: usize) -> (r: String)
    ensures
        r@ == ellipsize_spec(trim_of(s@), max_chars as nat),
{
    let t = trim_str(s);
    if max_chars == 0 {
        return String::new();
    }
    let mut tc = str_chars(t.as_str());
    if tc.len() <= max_chars {
        return t;
    }
    tc.truncate(max_chars - 1);
    tc.push('\u{2026}');
    proof {
        assert(tc@ =~= trim_of(s@).subrange(0, max_chars as int - 1).push('\u{2026}'));
    }
    chars_string(&tc)
}

/// What replacing each space by a no-break space yields.
pub open spec fn no_wrap_spec(s: Seq<char>) -> Seq<char> {
    s.map_values(
        |c: char|
            if c == ' ' {
                '\u{a0}'
            } else {
                c
            },
    )
}

/// Replaces every space by a no-break space, so the text never wraps.
pub fn no_wrap_spaces(s: &str) -> (r: String)
    ensures
        r@ == no_wrap_spec(s@),
{
    let sc = str_chars(s);
    let n = sc.len();
    let mut out: Vec<char> = Vec::new();
    let mut i: usize = 0;
    while i < n
        invariant
            n == sc@.len(),
            sc@ == s@,
            i <= n,
            out@.len() == i,
            forall|j: int|
                0 <= j < i ==> out@[j] == (if s@[j] == ' ' {
                    '\u{a0}'
                } else {
                    (#[trigger] s@[j])
                }),
        decreases n - i,
    {
        let c = sc[i];
        if c == ' ' {
            out.push('\u{a0}');
        } else {
            out.push(c);
        }
        i = i + 1;
    }
    proof {
        assert(out@ =~= no_wrap_spec(s@));
    }
    chars_string(&out)
}

/// Whether some display item carries this category.
pub open spec fn has_category(items: Seq<(Seq<char>, Seq<char>, Seq<char>)>, c: Seq<char>) -> bool {
    exists|i: int| 0 <= i < items.len() && (#[trigger] items[i]).2 == c
}

/// Membership of a display item in one category.
pub open spec fn in_category(c: Seq<char>) -> spec_fn((Seq<char>, Seq<char>, Seq<char>)) -> bool {
    |it: (Seq<char>, Seq<char>, Seq<char>)| it.2 == c
}

/// The (keys, description) pairs of the items in one category, in item
/// order.
pub open spec fn category_entries(
    items: Seq<(Seq<char>, Seq<char>, Seq<char>)>,
    c: Seq<char>,
) -> Seq<(Seq<char>, Seq<char>)> {
    items.filter(in_category(c)).map_values(
        |it: (Seq<char>, Seq<char>, Seq<char>)| (it.0, it.1),
    )
}

proof fn lemma_filter_none(
    s: Seq<(Seq<char>, Seq<char>, Seq<char>)>,
    pred: spec_fn((Seq<char>, Seq<char>, Seq<char>)) -> bool,
)
    requires
        forall|i: int| 0 <= i < s.len() ==> !pred(#[trigger] s[i]),
    ensures
        s.filter(pred) == Seq::<(Seq<char>, Seq<char>, Seq<char>)>::empty(),
    decreases s.len(),
{
    reveal(Seq::filter);
    if s.len() > 0 {
        assert(forall|i: int| 0 <= i < s.len() - 1 ==> s.drop_last()[i] == (#[trigger] s[i]));
        assert forall|i: int| 0 <= i < s.drop_last().len() implies !pred(
            #[trigger] s.drop_last()[i],
        ) by {
            assert(s.drop_last()[i] == s[i]);
        }
        lemma_filter_none(s.drop_last(), pred);
    }
}

/// The first position in the sorted group list whose category does not
/// sort before `cat`.
fn group_lower_bound(groups: &Vec<(String, Vec<(String, String)>)>, cat: &Vec<char>) -> (j: usize)
    ensures
        j <= groups@.len(),
        forall|g: int| 0 <= g < j ==> seq_lt((#[trigger] groups@[g]).0@, cat@),
        j < groups@.len() ==> !seq_lt(groups@[j as int].0@, cat@),
{
    let n = groups.len();
    let mut j: usize = 0;
    while j < n
        invariant
            n == groups@.len(),
            j <= n,
            forall|g: int| 0 <= g < j ==> seq_lt((#[trigger] groups@[g]).0@, cat@),
        decreases n - j,
    {
        let g = &groups[j];
        let gc = str_chars(g.0.as_str());
        if !chars_lt(&gc, cat) {
            return j;
        }
        j = j + 1;
    }
    j
}

/// Groups display items by category, categories in lexicographic order,
/// each category's entries in item order: what a grid of columns is built
/// from.
pub fn group_items(items: &Vec<(String, String, String)>) -> (r: Vec<
    (String, Vec<(String, String)>),
>)
    ensures
        forall|g: int, h: int|
            0 <= g < h < r@.len() ==> seq_lt((#[trigger] r@[g]).0@, (#[trigger] r@[h]).0@),
        forall|g: int|
            0 <= g < r@.len() ==> has_category(items.deep_view(), (#[trigger] r@[g]).0@) && r@[
                g
            ].1.deep_view() == category_entries(items.deep_view(), r@[g].0@),
        forall|c: Seq<char>|
            #[trigger] has_category(items.deep_view(), c) ==> exists|g: int|
                0 <= g < r@.len() && (#[trigger] r@[g]).0@ == c,
{
    let n = items.len();
    let mut out: Vec<(String, Vec<(String, String)>)> = Vec::new();
    let mut i: usize = 0;
    proof {
        assert(items.deep_view().subrange(0, 0) =~= Seq::<(Seq<char>, Seq<char>, Seq<char>)>::empty());
    }
    while i < n
        invariant
            n == items@.len(),
            i <= n,
            forall|g: int, h: int|
                0 <= g < h < out@.len() ==> seq_lt((#[trigger] out@[g]).0@, (#[trigger] out@[h]).0@),
            forall|g: int|
                0 <= g < out@.len() ==> has_category(
                    items.deep_view().subrange(0, i as int),
                    (#[trigger] out@[g]).0@,
                ) && out@[g].1.deep_view() == category_entries(
                    items.deep_view().subrange(0, i as int),
                    out@[g].0@,
                ),
            forall|c: Seq<char>|
                #[trigger] has_category(items.deep_view().subrange(0, i as int), c) ==> exists|g: int|
                    0 <= g < out@.len() && (#[trigger] out@[g]).0@ == c,
        decreases n - i,
    {
        let ghost p = items.deep_view().subrange(0, i as int);
        let ghost out0 = out@;
        let it = &items[i];
        let catc = str_chars(it.2.as_str());
        let j = group_lower_bound(&out, &catc);
        let mut found = false;
        if j < out.len() {
            let g = &out[j];
            if g.0.eq(&it.2) {
                found = true;
            }
        }
        proof {
            reveal(Seq::filter);
        }
        if found {
            let (name, mut entries) = out.remove(j);
            let ghost entries0 = entries@;
            entries.push((it.0.clone(), it.1.clone()));
            out.insert(j, (name, entries));
            proof {
                assert(out@ =~= out0.update(j as int, out@[j as int]));
                assert(out@[j as int].0@ == it.2@);
                assert(out@[j as int].1@.len() == entries0.len() + 1);
                assert(forall|k: int| 0 <= k < entries0.len() ==> out@[j as int].1@[k] == (
                #[trigger] entries0[k]));
                assert(out@[j as int].1@[entries0.len() as int].0@ == it.0@ && out@[
                    j as int
                ].1@[entries0.len() as int].1@ == it.1@);
            }
        } else {
            let mut entries: Vec<(String, String)> = Vec::new();
            entries.push((it.0.clone(), it.1.clone()));
            out.insert(j, (it.2.clone(), entries));
        }
        i = i + 1;
        proof {
            let p2 = items.deep_view().subrange(0, i as int);
            let dvi = items.deep_view()[i - 1];
            assert(p2.drop_last() =~= p);
            assert(p2.last() == dvi);
            assert(dvi == items@[i - 1].deep_view());
            let cat = dvi.2;
            assert(cat == it.2@);
            // every category present in the prefix stays present
            assert forall|c: Seq<char>| #[trigger] has_category(p, c) implies has_category(
                p2,
                c,
            ) by {
                let w = choose|w: int| 0 <= w < p.len() && (#[trigger] p[w]).2 == c;
                assert(p2[w].2 == c);
            }
            assert(p2[p2.len() - 1].2 == cat);
            assert(has_category(p2, cat));
            assert forall|c: Seq<char>| #[trigger] has_category(p2, c) implies c == cat
                || has_category(p, c) by {
                let w = choose|w: int| 0 <= w < p2.len() && (#[trigger] p2[w]).2 == c;
                if w < p.len() {
                    assert(p[w].2 == c);
                }
            }
            // how each category's entries change with the new item
            assert forall|c: Seq<char>| c != cat implies #[trigger] category_entries(p2, c)
                == category_entries(p, c) by {
                let cpred = in_category(c);
                assert(!cpred(dvi));
                assert(p2.filter(cpred) == p.filter(cpred));
            }
            let catpred = in_category(cat);
            assert(catpred(dvi));
            assert(p2.filter(catpred) == p.filter(catpred).push(dvi));
            assert(category_entries(p2, cat) =~= category_entries(p, cat).push((dvi.0, dvi.1)));
            if found {
                // the group at j took the new entry; all others are untouched
                assert(out@[j as int].0@ == cat);
                assert(out0[j as int].1.deep_view() == category_entries(p, cat));
                assert forall|k: int| 0 <= k < out@[j as int].1@.len() implies out@[
                    j as int
                ].1.deep_view()[k] == category_entries(p2, cat)[k] by {
                    assert(out@[j as int].1.deep_view()[k] == out@[j as int].1@[k].deep_view());
                    if k < out@[j as int].1@.len() - 1 {
                        assert(out@[j as int].1@[k] == out0[j as int].1@[k]);
                        assert(out0[j as int].1.deep_view()[k] == out0[j as int].1@[
                            k
                        ].deep_view());
                    }
                }
                assert(out@[j as int].1.deep_view() =~= category_entries(p2, cat));
                assert forall|g: int| 0 <= g < out@.len() && g != j implies (#[trigger] out@[
                    g
                ]).0@ != cat by {
                    if g < j {
                        assert(seq_lt(out@[g].0@, out@[j as int].0@));
                        if out@[g].0@ == cat {
                            crate::text::lemma_seq_lt_asym(out@[g].0@, cat);
                        }
                    } else {
                        assert(seq_lt(out@[j as int].0@, out@[g].0@));
                        if out@[g].0@ == cat {
                            crate::text::lemma_seq_lt_asym(cat, out@[g].0@);
                        }
                    }
                }
            } else {
                // a fresh group was inserted at the sorted position j
                assert(out@[j as int].0@ == cat);
                assert(out@[j as int].1@.len() == 1);
                // no earlier item carried this category
                assert forall|g: int| 0 <= g < out0.len() implies (#[trigger] out0[g]).0@
                    != cat by {
                    if g < j {
                        if out0[g].0@ == cat {
                            crate::text::lemma_seq_lt_asym(out0[g].0@, cat);
                        }
                    } else if g == j {
                    } else {
                        assert(seq_lt(out0[j as int].0@, out0[g].0@));
                        if out0[g].0@ == cat {
                            crate::text::lemma_seq_lt_total(out0[j as int].0@, cat);
                            crate::text::lemma_seq_lt_trans(cat, out0[j as int].0@, out0[g].0@);
                            crate::text::lemma_seq_lt_asym(cat, out0[g].0@);
                        }
                    }
                }
                assert(!has_category(p, cat));
                assert forall|w: int| 0 <= w < p.len() implies !catpred(#[trigger] p[w]) by {
                    if p[w].2 == cat {
                        assert(has_category(p, cat));
                    }
                }
                lemma_filter_none(p, catpred);
                assert(category_entries(p, cat) =~= Seq::<(Seq<char>, Seq<char>)>::empty());
                assert(out@[j as int].1.deep_view()[0] == out@[j as int].1@[0].deep_view());
                assert(out@[j as int].1.deep_view() =~= category_entries(p2, cat));
                // insertion keeps the list sorted
                if j < out0.len() {
                    assert(!seq_lt(out0[j as int].0@, cat));
                    crate::text::lemma_seq_lt_total(out0[j as int].0@, cat);
                    assert(seq_lt(cat, out0[j as int].0@));
                }
                assert forall|g: int, h: int| 0 <= g < h < out@.len() implies seq_lt(
                    (#[trigger] out@[g]).0@,
                    (#[trigger] out@[h]).0@,
                ) by {
                    let g0: int = if g < j { g } else { g - 1 };
                    let h0: int = if h < j { h } else { h - 1 };
                    if g == j {
                        assert(out@[h] == out0[h0]);
                        if h0 > j {
                            crate::text::lemma_seq_lt_trans(cat, out0[j as int].0@, out0[h0].0@);
                        }
                    } else if h == j {
                        assert(out@[g] == out0[g0]);
                    } else {
                        assert(out@[g] == out0[g0] && out@[h] == out0[h0]);
                        if g0 == h0 {
                            assert(g < j && h > j);
                            assert(seq_lt(out@[g].0@, cat) && seq_lt(cat, out@[h].0@));
                            crate::text::lemma_seq_lt_trans(out@[g].0@, cat, out@[h].0@);
                        }
                    }
                }
            }
            // groups other than the touched one keep their characterization
            assert forall|g: int| 0 <= g < out@.len() implies has_category(
                p2,
                (#[trigger] out@[g]).0@,
            ) && out@[g].1.deep_view() == category_entries(p2, out@[g].0@) by {
                if found {
                    if g != j {
                        assert(out@[g] == out0[g]);
                        assert(out@[g].0@ != cat);
                    }
                } else {
                    if g != j {
                        let g0: int = if g < j { g } else { g - 1 };
                        assert(out@[g] == out0[g0]);
                        assert(out@[g].0@ != cat);
                    }
                }
            }
            // completeness carries over to the new prefix
            assert forall|c: Seq<char>| #[trigger] has_category(p2, c) implies exists|g: int|
                0 <= g < out@.len() && (#[trigger] out@[g]).0@ == c by {
                if c == cat {
                    assert(out@[j as int].0@ == c);
                } else {
                    assert(has_category(p, c));
                    let g0 = choose|g0: int| 0 <= g0 < out0.len() && (#[trigger] out0[g0]).0@
                        == c;
                    if found {
                        if g0 == j {
                            assert(out@[g0].0@ == c);
                        } else {
                            assert(out@[g0] == out0[g0]);
                        }
                    } else {
                        let g: int = if g0 < j { g0 } else { g0 + 1 };
                        assert(out@[g] == out0[g0]);
                    }
                }
            }
        }
    }
    proof {
        assert(items.deep_view().subrange(0, n as int) =~= items.deep_view());
    }
    out
}

/// How many groups land in the column starting at `j` when every
/// `ncols`-th group is taken.
pub open spec fn column_len(n: int, j: int, ncols: int) -> int {
    if j >= n {
        0
    } else {
        (n - 1 - j) / ncols + 1
    }
}

/// The groups one column shows: every `ncols`-th group, starting at `j`.
pub open spec fn column_of(
    gs: Seq<(Seq<char>, Seq<(Seq<char>, Seq<char>)>)>,
    j: int,
    ncols: int,
) -> Seq<(Seq<char>, Seq<(Seq<char>, Seq<char>)>)> {
    Seq::new(column_len(gs.len() as int, j, ncols) as nat, |k: int| gs[j + k * ncols])
}

fn clone_group(g: &(String, Vec<(String, String)>)) -> (r: (String, Vec<(String, String)>))
    ensures
        r.0@ == g.0@,
        r.1.deep_view() == g.1.deep_view(),
{
    let n = g.1.len();
    let mut es: Vec<(String, String)> = Vec::new();
    let mut i: usize = 0;
    while i < n
        invariant
            n == g.1@.len(),
            i <= n,
            es@.len() == i,
            forall|k: int| 0 <= k < i ==> (#[trigger] es@[k]).deep_view() == g.1@[k].deep_view(),
        decreases n - i,
    {
        let e = &g.1[i];
        es.push((e.0.clone(), e.1.clone()));
        i = i + 1;
    }
    proof {
        assert forall|k: int| 0 <= k < n implies es.deep_view()[k] == g.1.deep_view()[k] by {
            assert(es.deep_view()[k] == es@[k].deep_view());
            assert(g.1.deep_view()[k] == g.1@[k].deep_view());
        }
        assert(es.deep_view() =~= g.1.deep_view());
    }
    (g.0.clone(), es)
}

/// Distributes the sorted category groups over `max_cols` columns, round
/// robin: column `j` shows every `max_cols`-th group starting at the
/// `j`-th.
pub fn grouped_columns(groups: &Vec<(String, Vec<(String, String)>)>, max_cols: usize) -> (r: Vec<
    Vec<(String, Vec<(String, String)>)>,
>)
    requires
        max_cols > 0,
    ensures
        r@.len() == max_cols,
        forall|j: int|
            0 <= j < max_cols ==> (#[trigger] r@[j]).deep_view() == column_of(
                groups.deep_view(),
                j,
                max_cols as int,
            ),
{
    let n = groups.len();
    let mut cols: Vec<Vec<(String, Vec<(String, String)>)>> = Vec::new();
    let mut j: usize = 0;
    while j < max_cols
        invariant
            n == groups@.len(),
            max_cols > 0,
            j <= max_cols,
            cols@.len() == j,
            forall|jj: int|
                0 <= jj < j ==> (#[trigger] cols@[jj]).deep_view() == column_of(
                    groups.deep_view(),
                    jj,
                    max_cols as int,
                ),
        decreases max_cols - j,
    {
        let mut col: Vec<(String, Vec<(String, String)>)> = Vec::new();
        let cnt: usize = if j < n {
            (n - j - 1) / max_cols + 1
        } else {
            0
        };
        proof {
            assert(cnt as int == column_len(n as int, j as int, max_cols as int));
        }
        let mut k: usize = 0;
        while k < cnt
            invariant
                n == groups@.len(),
                max_cols > 0,
                j < n || cnt == 0,
                cnt as int == column_len(n as int, j as int, max_cols as int),
                k <= cnt,
                col@.len() == k,
                forall|kk: int|
                    0 <= kk < k ==> (#[trigger] col@[kk]).0@ == groups@[
                        j + kk * max_cols
                    ].0@ && col@[kk].1.deep_view() == groups@[j + kk * max_cols].1.deep_view(),
            decreases cnt - k,
        {
            proof {
                assert(k as int * max_cols as int <= n - 1 - j) by (nonlinear_arith)
                    requires
                        k < cnt,
                        max_cols > 0,
                        j < n,
                        cnt as int == (n - 1 - j) as int / max_cols as int + 1,
                ;
            }
            let idx = j + k * max_cols;
            let g = clone_group(&groups[idx]);
            col.push(g);
            k = k + 1;
        }
        cols.push(col);
        j = j + 1;
        proof {
            let gdv = groups.deep_view();
            let m = max_cols as int;
            let jj = j as int - 1;
            assert(cols@[jj] == col);
            assert forall|kk: int| 0 <= kk < cnt implies col.deep_view()[kk] == column_of(
                gdv,
                jj,
                m,
            )[kk] by {
                assert(jj < n);
                assert(kk * m <= n - 1 - jj) by (nonlinear_arith)
                    requires
                        0 <= kk,
                        kk < cnt,
                        m > 0,
                        jj < n,
                        cnt as int == (n - 1 - jj) / m + 1,
                ;
                assert(0 <= jj + kk * m < n);
                assert(col.deep_view()[kk] == col@[kk].deep_view());
                assert(column_of(gdv, jj, m)[kk] == gdv[jj + kk * m]);
                assert(gdv[jj + kk * m] == groups@[jj + kk * m].deep_view());
            }
            assert(col.deep_view() =~= column_of(gdv, jj, m));
        }
    }
    cols
}

} // verus!
