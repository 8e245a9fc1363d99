use vstd::prelude::*;

use crate::id_map::{has_key, keys_increasing, lemma_has_key, lemma_slot, lookup, slot, IdMap};
use crate::amount::Fl;
use crate::ids::ItemId;
use crate::recipe::Recipe;

verus! {

/// Whether the check box of item `k` is ticked.
pub open spec fn ticked(checked: Seq<(usize, bool)>, k: usize) -> bool {
    lookup(checked, k) == Some(true)
}

/// The number of times `x` occurs in `list`.
pub open spec fn occurrences(list: Seq<ItemId>, x: ItemId) -> nat {
    list.filter(|y: ItemId| y == x).len()
}

/// An item of `list` leaves it: its box is not ticked, or it occurs more
/// than once.
pub open spec fn dropped(list: Seq<ItemId>, checked: Seq<(usize, bool)>, k: usize) -> bool {
    list.contains(ItemId(k)) && (!ticked(checked, k) || occurrences(list, ItemId(k)) >= 2)
}

/// The keys of `s`, as items.
pub open spec fn key_items<V>(s: Seq<(usize, V)>) -> Seq<ItemId> {
    s.map_values(|e: (usize, V)| ItemId(e.0))
}

/// A list of chosen items brought in line with their check boxes.
pub struct SelectionChange {
    /// The new list: the items kept, in their order, then the newly ticked
    /// ones.
    pub list: Vec<ItemId>,
    /// The newly ticked items (not in the list before), to enable.
    pub enabled: IdMap<()>,
    /// The items that left the list, to disable.
    pub disabled: IdMap<()>,
}

/// Brings the list of chosen items in line with the ticked boxes: the items
/// whose box is no longer ticked leave the list (as does an item listed
/// twice), and the newly ticked items join it at the end, in increasing
/// identifier order.
pub fn sync_selection(list: &Vec<ItemId>, checked: &IdMap<bool>) -> (res: SelectionChange)
    ensures
        forall|k: usize| #[trigger]
            has_key(res.enabled.entry_seq(), k) <==> ticked(checked.entry_seq(), k) && !list@.contains(ItemId(k)),
        forall|k: usize| #[trigger]
            has_key(res.disabled.entry_seq(), k) <==> dropped(list@, checked.entry_seq(), k),
        res.list@ == list@.filter(|x: ItemId| !dropped(list@, checked.entry_seq(), x.0)) + key_items(
            res.enabled.entry_seq(),
        ),
{
    let ch = checked.entries();
    let ghost cs = checked.entry_seq();
    let mut to_add: IdMap<()> = IdMap::new();
    let mut i: usize = 0;
    while i < ch.len()
        invariant
            0 <= i <= ch.len(),
            ch@ == cs,
            keys_increasing(cs),
            forall|k: usize| #[trigger]
                has_key(to_add.entry_seq(), k) <==> exists|j: int| 0 <= j < i && ch@[j].0 == k && ch@[j].1,
        decreases ch.len() - i,
    {
        let ghost before = to_add.entry_seq();
        proof {
            use_type_invariant(&to_add);
            crate::id_map::lemma_upsert(before, ch@[i as int].0, ());
        }
        if ch[i].1 {
            to_add.insert(ch[i].0, ());
        }
        proof {
            assert forall|k: usize| #[trigger] has_key(to_add.entry_seq(), k) <==> exists|j: int|
                0 <= j < i + 1 && ch@[j].0 == k && ch@[j].1 by {
                let c = ch@[i as int];
                if has_key(before, k) {
                    let j = choose|j: int| 0 <= j < i && ch@[j].0 == k && ch@[j].1;
                    assert(0 <= j < i + 1 && ch@[j].0 == k && ch@[j].1);
                }
                if c.1 && c.0 == k {
                    assert(0 <= i < i + 1 && ch@[i as int].0 == k && ch@[i as int].1);
                }
                if exists|j: int| 0 <= j < i + 1 && ch@[j].0 == k && ch@[j].1 {
                    let j = choose|j: int| 0 <= j < i + 1 && ch@[j].0 == k && ch@[j].1;
                    if j < i {
                        assert(has_key(before, k));
                    }
                }
                if k != c.0 || !c.1 {
                    assert(lookup(to_add.entry_seq(), k) == lookup(before, k));
                    assert(has_key(to_add.entry_seq(), k) == has_key(before, k));
                }
            }
        }
        i += 1;
    }
    proof {
        assert forall|k: usize| #[trigger] has_key(to_add.entry_seq(), k) <==> ticked(cs, k) by {
            lemma_slot(cs, k);
            if has_key(to_add.entry_seq(), k) {
                let j = choose|j: int| 0 <= j < ch@.len() && ch@[j].0 == k && ch@[j].1;
                crate::id_map::lemma_slot_of_index(cs, k, j);
            }
            if ticked(cs, k) {
                assert(ch@[slot(cs, k)].0 == k && ch@[slot(cs, k)].1);
            }
        }
    }
    let mut to_remove: IdMap<()> = IdMap::new();
    let mut j: usize = 0;
    while j < list.len()
        invariant
            0 <= j <= list.len(),
            forall|k: usize| #[trigger]
                has_key(to_add.entry_seq(), k) <==> ticked(cs, k) && !list@.take(j as int).contains(ItemId(k)),
            forall|k: usize| #[trigger]
                has_key(to_remove.entry_seq(), k) <==> list@.take(j as int).contains(ItemId(k)) && (!ticked(cs, k)
                    || occurrences(list@.take(j as int), ItemId(k)) >= 2),
        decreases list.len() - j,
    {
        let x = list[j];
        let ghost t0 = list@.take(j as int);
        let ghost t1 = list@.take(j + 1);
        proof {
            assert(t1 == t0.push(x));
            assert forall|y: ItemId| #[trigger] t1.contains(y) <==> t0.contains(y) || y == x by {
                if t1.contains(y) {
                    let a = choose|a: int| 0 <= a < t1.len() && t1[a] == y;
                    if a < t0.len() {
                        assert(t0[a] == y);
                    }
                }
                if t0.contains(y) {
                    let a = choose|a: int| 0 <= a < t0.len() && t0[a] == y;
                    assert(t1[a] == y);
                }
                assert(t1[t0.len() as int] == x);
            }
            assert forall|y: ItemId| #[trigger] occurrences(t1, y) == occurrences(t0, y) + (if y == x {
                1int
            } else {
                0int
            }) by {
                lemma_occurrences_push(t0, y, x);
            }
            assert forall|y: ItemId| #[trigger] t0.contains(y) <==> occurrences(t0, y) >= 1 by {
                lemma_occurrences_contains(t0, y);
            }
        }
        let ghost add0 = to_add.entry_seq();
        let ghost rem0 = to_remove.entry_seq();
        proof {
            use_type_invariant(&to_add);
            use_type_invariant(&to_remove);
            crate::id_map::lemma_upsert(rem0, x.0, ());
            crate::id_map::lemma_delete(add0, x.0);
            assert(ItemId(x.0) == x);
            lemma_occurrences_contains(t0, x);
        }
        if !to_add.contains_key(x.0) {
            to_remove.insert(x.0, ());
        }
        to_add.remove(x.0);
        proof {
            assert forall|k: usize| #[trigger] has_key(to_add.entry_seq(), k) <==> ticked(cs, k) && !t1.contains(ItemId(k)) by {
                if k != x.0 {
                    assert(ItemId(k) != x);
                    assert(lookup(to_add.entry_seq(), k) == lookup(add0, k));
                }
            }
            assert forall|k: usize| #[trigger] has_key(to_remove.entry_seq(), k) <==> t1.contains(ItemId(k))
                && (!ticked(cs, k) || occurrences(t1, ItemId(k)) >= 2) by {
                if k != x.0 {
                    assert(ItemId(k) != x);
                    assert(lookup(to_remove.entry_seq(), k) == lookup(rem0, k));
                } else {
                    lemma_occurrences_contains(t1, x);
                }
            }
        }
        j += 1;
    }
    proof {
        assert(list@.take(list@.len() as int) == list@);
    }
    let mut new_list: Vec<ItemId> = Vec::new();
    let mut a: usize = 0;
    while a < list.len()
        invariant
            0 <= a <= list.len(),
            forall|k: usize| #[trigger]
                has_key(to_remove.entry_seq(), k) <==> dropped(list@, cs, k),
            new_list@ == list@.take(a as int).filter(|x: ItemId| !dropped(list@, cs, x.0)),
        decreases list.len() - a,
    {
        let x = list[a];
        proof {
            assert(list@.take(a + 1) == list@.take(a as int).push(x));
            assert(list@.take(a + 1).drop_last() == list@.take(a as int));
            reveal(Seq::filter);
        }
        if !to_remove.contains_key(x.0) {
            new_list.push(x);
        }
        a += 1;
    }
    proof {
        assert(list@.take(list@.len() as int) == list@);
    }
    let added = to_add.entries();
    let ghost kept = new_list@;
    let mut b: usize = 0;
    while b < added.len()
        invariant
            0 <= b <= added.len(),
            added@ == to_add.entry_seq(),
            new_list@ == kept + key_items(added@.take(b as int)),
        decreases added.len() - b,
    {
        new_list.push(ItemId(added[b].0));
        proof {
            assert(key_items(added@.take(b + 1)) == key_items(added@.take(b as int)).push(ItemId(added@[b as int].0)));
        }
        b += 1;
    }
    proof {
        assert(added@.take(added@.len() as int) == added@);
    }
    SelectionChange { list: new_list, enabled: to_add, disabled: to_remove }
}

pub proof fn lemma_occurrences_push(s: Seq<ItemId>, y: ItemId, x: ItemId)
    ensures
        occurrences(s.push(x), y) == occurrences(s, y) + (if x == y {
            1int
        } else {
            0int
        }),
{
    reveal(Seq::filter);
    assert(s.push(x).drop_last() == s);
}

pub proof fn lemma_occurrences_contains(s: Seq<ItemId>, y: ItemId)
    ensures
        s.contains(y) <==> occurrences(s, y) >= 1,
    decreases s.len(),
{
    if s.len() > 0 {
        let d = s.drop_last();
        lemma_occurrences_contains(d, y);
        assert(s == d.push(s.last()));
        lemma_occurrences_push(d, y, s.last());
        if s.contains(y) {
            let a = choose|a: int| 0 <= a < s.len() && s[a] == y;
            if a < d.len() {
                assert(d[a] == y);
            }
        }
        if d.contains(y) {
            let a = choose|a: int| 0 <= a < d.len() && d[a] == y;
            assert(s[a] == y);
        }
    }
}

/// Moves the dragged item of `list` to the place of the hovered one, when
/// the list can be reordered and the two differ.
pub fn drop_item(list: &mut Vec<ItemId>, dragged: Option<usize>, hovered: Option<usize>, movable: bool)
    requires
        movable && dragged is Some && hovered is Some && dragged != hovered ==> dragged->0 < old(
            list,
        )@.len() && hovered->0 < old(list)@.len(),
    ensures
        final(list)@ == (if movable && dragged is Some && hovered is Some && dragged != hovered {
            old(list)@.remove(dragged->0 as int).insert(hovered->0 as int, old(list)@[dragged->0 as int])
        } else {
            old(list)@
        }),
{
    if let (Some(from), Some(to)) = (dragged, hovered) {
        if movable && from != to {
            let value = list.remove(from);
            list.insert(to, value);
        }
    }
}

/// Whether the amount of an item cannot be edited: its box is not ticked,
/// it is switched off, or it is to be maximized.
pub fn amount_input_disabled(enabled: bool, selected: Option<bool>, maximize: Option<bool>) -> (res: bool)
    ensures
        res == (selected == Some(false) || !enabled || maximize == Some(true)),
{
    let maximize = match maximize {
        Some(m) => m,
        None => false,
    };
    let selected = match selected {
        Some(s) => s,
        None => true,
    };
    !selected || !enabled || maximize
}

/// The lower-case form of a text, as `str::to_lowercase` gives it.
pub uninterp spec fn lowercase(s: Seq<char>) -> Seq<char>;

/// Calls `str::to_lowercase` (std), which maps each character of `s` to its
/// lower-case form; the result is a function of `s` alone, named `lowercase`.
#[verifier::external_body]
fn to_lowercase(s: &str) -> (r: String)
    ensures
        r@ == lowercase(s@),
{
    s.to_lowercase()
}

/// The key under which a name is searched: its lower-case form.
pub fn search_key(name: &str) -> (r: String)
    ensures
        r@ == lowercase(name@),
{
    to_lowercase(name)
}

/// Whether `pat` occurs in `text`.
pub open spec fn occurs_in(pat: Seq<char>, text: Seq<char>) -> bool {
    exists|i: int| 0 <= i && i + pat.len() <= text.len() && #[trigger] text.subrange(i, i + pat.len()) == pat
}

/// The characters of `s`.
fn chars_of(s: &str) -> (res: Vec<char>)
    ensures
        res@ == s@,
{
    let n = s.unicode_len();
    let mut out: Vec<char> = Vec::new();
    let mut i: usize = 0;
    while i < n
        invariant
            0 <= i <= n,
            n == s@.len(),
            out@ == s@.take(i as int),
        decreases n - i,
    {
        out.push(s.get_char(i));
        proof {
            assert(s@.take(i + 1) == s@.take(i as int).push(s@[i as int]));
        }
        i += 1;
    }
    proof {
        assert(s@.take(n as int) == s@);
    }
    out
}

/// Whether `pat` occurs in `text` at position `at`.
fn occurs_at(text: &Vec<char>, pat: &Vec<char>, at: usize) -> (res: bool)
    requires
        at + pat@.len() <= text@.len(),
    ensures
        res == (text@.subrange(at as int, at + pat@.len()) == pat@),
{
    assert(text@.len() == text.len());
    let mut j: usize = 0;
    while j < pat.len()
        invariant
            0 <= j <= pat.len(),
            at + pat@.len() <= text@.len(),
            text@.len() <= usize::MAX,
            forall|k: int| 0 <= k < j ==> text@[at + k] == pat@[k],
        decreases pat.len() - j,
    {
        if text[at + j] != pat[j] {
            assert(text@.subrange(at as int, at + pat@.len())[j as int] != pat@[j as int]);
            return false;
        }
        j += 1;
    }
    assert(text@.subrange(at as int, at + pat@.len()) =~= pat@);
    true
}

/// Whether `pat` occurs in `text`.
pub fn contains_text(text: &str, pat: &str) -> (res: bool)
    ensures
        res == occurs_in(pat@, text@),
{
    let t = chars_of(text);
    let p = chars_of(pat);
    if p.len() > t.len() {
        return false;
    }
    let last = t.len() - p.len();
    let mut i: usize = 0;
    loop
        invariant
            0 <= i <= last,
            last + p@.len() == t@.len(),
            t@ == text@,
            p@ == pat@,
            forall|k: int| 0 <= k < i ==> #[trigger] t@.subrange(k, k + p@.len()) != p@,
        ensures
            forall|k: int| 0 <= k <= last ==> #[trigger] t@.subrange(k, k + p@.len()) != p@,
        decreases last - i,
    {
        if occurs_at(&t, &p, i) {
            return true;
        }
        if i == last {
            break;
        }
        i += 1;
    }
    proof {
        assert forall|k: int| 0 <= k && k + pat@.len() <= text@.len() implies #[trigger] text@.subrange(k, k + pat@.len()) != pat@ by {
            assert(t@.subrange(k, k + p@.len()) != p@);
        }
    }
    false
}

/// Some name of `keys` for identifier `k` holds `query`.
pub open spec fn found(keys: Seq<(String, usize)>, query: Seq<char>, k: usize) -> bool {
    exists|j: int| 0 <= j < keys.len() && keys[j].1 == k && occurs_in(query, (#[trigger] keys[j]).0@)
}

/// The entries of `shown` to display for the search `query`: all of them
/// when the query is empty, otherwise those whose identifier has a key in
/// `keys` (lower-case names, see `search_key`) holding the lower-case query.
pub fn search<T: Copy>(keys: &[(String, usize)], query: &str, shown: &IdMap<T>) -> (res: IdMap<T>)
    ensures
        lowercase(query@).len() == 0 ==> res.entry_seq() == shown.entry_seq(),
        lowercase(query@).len() > 0 ==> forall|k: usize| #[trigger]
            lookup(res.entry_seq(), k) == (if has_key(shown.entry_seq(), k) && found(keys@, lowercase(query@), k) {
                lookup(shown.entry_seq(), k)
            } else {
                None
            }),
{
    let searched = to_lowercase(query);
    let entries = shown.entries();
    let mut res: IdMap<T> = IdMap::new();
    if searched.as_str().unicode_len() == 0 {
        let mut i: usize = 0;
        while i < entries.len()
            invariant
                0 <= i <= entries.len(),
                entries@ == shown.entry_seq(),
                keys_increasing(entries@),
                res.entry_seq() == entries@.take(i as int),
            decreases entries.len() - i,
        {
            let ghost before = res.entry_seq();
            res.insert(entries[i].0, entries[i].1);
            proof {
                lemma_append_greater_key(before, entries@[i as int].0, entries@[i as int].1, entries@, i as int);
                assert(entries@.take(i + 1) == entries@.take(i as int).push(entries@[i as int]));
            }
            i += 1;
        }
        proof {
            assert(entries@.take(i as int) == entries@);
        }
        return res;
    }
    let mut i: usize = 0;
    while i < entries.len()
        invariant
            0 <= i <= entries.len(),
            entries@ == shown.entry_seq(),
            keys_increasing(entries@),
            searched@ == lowercase(query@),
            forall|k: usize| #[trigger]
                lookup(res.entry_seq(), k) == (if (exists|a: int| 0 <= a < i && entries@[a].0 == k) && found(keys@, searched@, k) {
                    lookup(entries@, k)
                } else {
                    None
                }),
        decreases entries.len() - i,
    {
        let (k, v) = entries[i];
        let mut hit = false;
        let mut j: usize = 0;
        while j < keys.len() && !hit
            invariant
                0 <= j <= keys.len(),
                hit ==> found(keys@, searched@, k),
                !hit ==> forall|b: int| 0 <= b < j ==> !(keys@[b].1 == k && occurs_in(searched@, (#[trigger] keys@[b]).0@)),
            decreases keys.len() - j + (if hit { 0int } else { 1int }),
        {
            if keys[j].1 == k && contains_text(keys[j].0.as_str(), searched.as_str()) {
                hit = true;
            }
            j += 1;
        }
        let ghost before = res.entry_seq();
        proof {
            use_type_invariant(&res);
            crate::id_map::lemma_upsert(before, k, v);
            crate::id_map::lemma_slot_of_index(entries@, k, i as int);
        }
        if hit {
            res.insert(k, v);
        }
        proof {
            assert forall|kk: usize| #[trigger] lookup(res.entry_seq(), kk) == (if (exists|a: int| 0 <= a < i + 1 && entries@[a].0 == kk) && found(keys@, searched@, kk) {
                lookup(entries@, kk)
            } else {
                None
            }) by {
                if kk != k {
                    assert(lookup(res.entry_seq(), kk) == lookup(before, kk));
                    if exists|a: int| 0 <= a < i + 1 && entries@[a].0 == kk {
                        let a = choose|a: int| 0 <= a < i + 1 && entries@[a].0 == kk;
                        assert(a != i);
                    }
                } else {
                    if exists|a: int| 0 <= a < i && entries@[a].0 == kk {
                        let a = choose|a: int| 0 <= a < i && entries@[a].0 == kk;
                        assert(entries@[a].0 < entries@[i as int].0);
                    }
                    if !hit {
                        assert(!found(keys@, searched@, k));
                    }
                }
            }
        }
        i += 1;
    }
    proof {
        assert forall|k: usize| #[trigger] lookup(res.entry_seq(), k) == (if has_key(shown.entry_seq(), k) && found(keys@, lowercase(query@), k) {
            lookup(shown.entry_seq(), k)
        } else {
            None
        }) by {
            lemma_has_key(entries@, k);
        }
    }
    res
}

/// Adding an entry whose key is above those already added, in a list with
/// increasing keys, appends it.
proof fn lemma_append_greater_key<T>(before: Seq<(usize, T)>, k: usize, v: T, all: Seq<(usize, T)>, i: int)
    requires
        keys_increasing(all),
        0 <= i < all.len(),
        all[i] == (k, v),
        before == all.take(i),
    ensures
        crate::id_map::upsert(before, k, v) == before.push((k, v)),
{
    lemma_slot(before, k);
    assert(slot(before, k) == before.len()) by {
        if slot(before, k) < before.len() {
            assert(before[slot(before, k)] == all[slot(before, k)]);
            assert(all[slot(before, k)].0 < all[i].0);
        }
    }
    assert(!has_key(before, k));
    assert(before.insert(before.len() as int, (k, v)) =~= before.push((k, v)));
}

/// Search keys as plain text: each lower-case name with its identifier.
pub open spec fn key_view(keys: Seq<(String, usize)>) -> Seq<(Seq<char>, usize)> {
    keys.map_values(|e: (String, usize)| (e.0@, e.1))
}

/// The name stored for `k` in `names`, as text.
pub open spec fn name_of(names: Seq<(usize, String)>, k: usize) -> Seq<char> {
    (lookup(names, k)->0)@
}

/// A later entry of `listed` has a name with the same lower-case form as
/// that of entry `i`: the later entry takes that form over in the search.
pub open spec fn name_shadowed<T>(listed: Seq<(usize, T)>, names: Seq<(usize, String)>, i: int) -> bool {
    exists|j: int|
        #![trigger listed[j]]
        i < j < listed.len() && has_key(names, listed[j].0) && lowercase(name_of(names, listed[j].0)) == lowercase(
            name_of(names, listed[i].0),
        )
}

/// `lows` holds, for each entry of `entries`, the lower-case form of its name
/// in `names`, or `None` where it has none.
pub open spec fn lowered_ok<T>(lows: Seq<Option<String>>, entries: Seq<(usize, T)>, names: Seq<(usize, String)>) -> bool {
    &&& lows.len() == entries.len()
    &&& forall|y: int|
        0 <= y < lows.len() ==> ((#[trigger] lows[y]) is Some == has_key(names, entries[y].0)) && (lows[y] is Some
            ==> lows[y]->0@ == lowercase(name_of(names, entries[y].0)))
}

/// The lower-case form of the name of each entry, where it has one.
fn lowered_names<T>(entries: &[(usize, T)], names: &IdMap<String>) -> (lows: Vec<Option<String>>)
    ensures
        lowered_ok(lows@, entries@, names.entry_seq()),
{
    let mut lows: Vec<Option<String>> = Vec::new();
    let mut i: usize = 0;
    while i < entries.len()
        invariant
            0 <= i <= entries.len(),
            lows@.len() == i,
            forall|y: int|
                0 <= y < i ==> ((#[trigger] lows@[y]) is Some == has_key(names.entry_seq(), entries@[y].0)) && (
                lows@[y] is Some ==> lows@[y]->0@ == lowercase(name_of(names.entry_seq(), entries@[y].0))),
        decreases entries.len() - i,
    {
        let ghost before = lows@;
        match names.get(entries[i].0) {
            Some(n) => {
                lows.push(Some(search_key(n.as_str())));
            },
            None => {
                lows.push(None);
            },
        }
        proof {
            assert forall|y: int| 0 <= y < i implies lows@[y] == before[y] by {}
        }
        i += 1;
    }
    lows
}

/// Whether an entry of `lows` after `i` holds the text `l`.
fn later_same(lows: &Vec<Option<String>>, i: usize, l: &String) -> (res: bool)
    requires
        i < lows@.len(),
    ensures
        res == exists|j: int| #![trigger lows@[j]] i < j < lows@.len() && lows@[j] is Some && lows@[j]->0@ == l@,
{
    let n = lows.len();
    let mut j: usize = i + 1;
    while j < n
        invariant
            i < j <= n,
            n == lows@.len(),
            forall|jj: int| #![trigger lows@[jj]] i < jj < j ==> !(lows@[jj] is Some && lows@[jj]->0@ == l@),
        decreases n - j,
    {
        match &lows[j] {
            Some(m) => {
                if *m == *l {
                    assert(lows@[j as int] is Some && lows@[j as int]->0@ == l@);
                    return true;
                }
            },
            None => {},
        }
        j += 1;
    }
    false
}

/// Whether entry `i`, whose lower-case name `l` is, is taken over by a later
/// entry, as `name_shadowed` says.
proof fn lemma_later_same<T>(lows: Seq<Option<String>>, entries: Seq<(usize, T)>, names: Seq<(usize, String)>, i: int)
    requires
        lowered_ok(lows, entries, names),
        0 <= i < lows.len(),
        lows[i] is Some,
    ensures
        (exists|j: int| #![trigger lows[j]] i < j < lows.len() && lows[j] is Some && lows[j]->0@ == lows[i]->0@)
            == name_shadowed(entries, names, i),
{
    if exists|j: int| #![trigger lows[j]] i < j < lows.len() && lows[j] is Some && lows[j]->0@ == lows[i]->0@ {
        let j = choose|j: int| #![trigger lows[j]] i < j < lows.len() && lows[j] is Some && lows[j]->0@ == lows[i]->0@;
        assert(entries[j] == entries[j]);
    }
    if name_shadowed(entries, names, i) {
        let j = choose|j: int|
            #![trigger entries[j]]
            i < j < entries.len() && has_key(names, entries[j].0) && lowercase(name_of(names, entries[j].0))
                == lowercase(name_of(names, entries[i].0));
        assert(lows[j] is Some);
    }
}

/// The search keys of the first `k` items of `listed`: for each item with a
/// name in `names` that no later item of `listed` takes over (see
/// `name_shadowed`), its lower-case name with its identifier.
pub open spec fn item_keys_upto<T>(listed: Seq<(usize, T)>, names: Seq<(usize, String)>, k: int) -> Seq<(Seq<char>, usize)>
    decreases k,
{
    if k <= 0 {
        Seq::empty()
    } else {
        let prev = item_keys_upto(listed, names, k - 1);
        let e = listed[k - 1].0;
        if has_key(names, e) && !name_shadowed(listed, names, k - 1) {
            prev.push((lowercase(name_of(names, e)), e))
        } else {
            prev
        }
    }
}

/// The search keys of the items of `listed`.
pub open spec fn item_keys<T>(listed: Seq<(usize, T)>, names: Seq<(usize, String)>) -> Seq<(Seq<char>, usize)> {
    item_keys_upto(listed, names, listed.len() as int)
}

/// The keys under which the items of `listed` are searched: the lower-case
/// name of each item that `item_names` names, with its identifier; of items
/// whose names share a lower-case form, only the last one keeps it.
pub fn item_search_keys<T>(listed: &IdMap<T>, item_names: &IdMap<String>) -> (keys: Vec<(String, usize)>)
    ensures
        key_view(keys@) == item_keys(listed.entry_seq(), item_names.entry_seq()),
{
    let entries = listed.entries();
    let ghost names = item_names.entry_seq();
    let lows = lowered_names(entries, item_names);
    let mut keys: Vec<(String, usize)> = Vec::new();
    let mut i: usize = 0;
    while i < entries.len()
        invariant
            0 <= i <= entries.len(),
            entries@ == listed.entry_seq(),
            names == item_names.entry_seq(),
            lowered_ok(lows@, entries@, names),
            key_view(keys@) == item_keys_upto(entries@, names, i as int),
        decreases entries.len() - i,
    {
        let k = entries[i].0;
        let ghost before = keys@;
        match &lows[i] {
            Some(l) => {
                proof {
                    lemma_later_same(lows@, entries@, names, i as int);
                }
                if !later_same(&lows, i, l) {
                    keys.push((l.clone(), k));
                    proof {
                        assert(key_view(keys@) =~= key_view(before).push((lowercase(name_of(names, k)), k)));
                    }
                }
            },
            None => {},
        }
        i += 1;
    }
    keys
}

/// The keys of the items of one list of a recipe, each with the recipe's
/// identifier.
pub open spec fn io_keys(io: Seq<(usize, Fl)>, rid: usize, names: Seq<(usize, String)>) -> Seq<(Seq<char>, usize)> {
    Seq::new(io.len(), |j: int| (lowercase(name_of(names, io[j].0)), rid))
}

/// The search keys of the first `k` recipes of `book`: for each recipe in
/// turn, its lower-case name (unless a later recipe takes that form over, see
/// `name_shadowed`), then the lower-case names of its inputs, then those of
/// its outputs, each with the recipe's identifier.
pub open spec fn recipe_keys_upto(
    book: Seq<(usize, Recipe)>,
    recipe_names: Seq<(usize, String)>,
    item_names: Seq<(usize, String)>,
    k: int,
) -> Seq<(Seq<char>, usize)>
    decreases k,
{
    if k <= 0 {
        Seq::empty()
    } else {
        let prev = recipe_keys_upto(book, recipe_names, item_names, k - 1);
        let (rid, r) = book[k - 1];
        let named = if !name_shadowed(book, recipe_names, k - 1) {
            prev.push((lowercase(name_of(recipe_names, rid)), rid))
        } else {
            prev
        };
        named + io_keys(r.inputs.entry_seq(), rid, item_names) + io_keys(r.outputs.entry_seq(), rid, item_names)
    }
}

/// The search keys of the recipes of `book`.
pub open spec fn recipe_keys(
    book: Seq<(usize, Recipe)>,
    recipe_names: Seq<(usize, String)>,
    item_names: Seq<(usize, String)>,
) -> Seq<(Seq<char>, usize)> {
    recipe_keys_upto(book, recipe_names, item_names, book.len() as int)
}

/// Every recipe of `book` has a name, and every item it takes or makes too.
pub open spec fn recipes_named(
    book: Seq<(usize, Recipe)>,
    recipe_names: Seq<(usize, String)>,
    item_names: Seq<(usize, String)>,
) -> bool {
    forall|i: int|
        0 <= i < book.len() ==> {
            &&& has_key(recipe_names, (#[trigger] book[i]).0)
            &&& forall|j: int|
                0 <= j < book[i].1.inputs.entry_seq().len() ==> has_key(
                    item_names,
                    (#[trigger] book[i].1.inputs.entry_seq()[j]).0,
                )
            &&& forall|j: int|
                0 <= j < book[i].1.outputs.entry_seq().len() ==> has_key(
                    item_names,
                    (#[trigger] book[i].1.outputs.entry_seq()[j]).0,
                )
        }
}

/// Appends to `keys` the keys of the items of `io`, for recipe `rid`.
fn push_io_keys(keys: &mut Vec<(String, usize)>, io: &[(usize, Fl)], rid: usize, item_names: &IdMap<String>)
    requires
        forall|j: int| 0 <= j < io@.len() ==> has_key(item_names.entry_seq(), (#[trigger] io@[j]).0),
    ensures
        key_view(final(keys)@) == key_view(old(keys)@) + io_keys(io@, rid, item_names.entry_seq()),
{
    let ghost start = key_view(keys@);
    let ghost names = item_names.entry_seq();
    let mut j: usize = 0;
    while j < io.len()
        invariant
            0 <= j <= io.len(),
            names == item_names.entry_seq(),
            forall|jj: int| 0 <= jj < io@.len() ==> has_key(names, (#[trigger] io@[jj]).0),
            key_view(keys@) == start + io_keys(io@.take(j as int), rid, names),
        decreases io.len() - j,
    {
        let iid = io[j].0;
        let ghost before = keys@;
        let name = item_names.get(iid).unwrap();
        let key = search_key(name.as_str());
        keys.push((key, rid));
        proof {
            assert(io_keys(io@.take(j + 1), rid, names) =~= io_keys(io@.take(j as int), rid, names).push(
                (lowercase(name_of(names, iid)), rid),
            ));
            assert(key_view(keys@) =~= key_view(before).push((lowercase(name_of(names, iid)), rid)));
        }
        j += 1;
    }
    proof {
        assert(io@.take(j as int) == io@);
    }
}

/// The keys under which the recipes of `recipes` are searched: the
/// lower-case name of each recipe (of recipes whose names share a lower-case
/// form, only the last one keeps it), and those of the items it takes and
/// makes, each with the recipe's identifier.
pub fn recipe_search_keys(
    recipes: &IdMap<Recipe>,
    recipe_names: &IdMap<String>,
    item_names: &IdMap<String>,
) -> (keys: Vec<(String, usize)>)
    requires
        recipes_named(recipes.entry_seq(), recipe_names.entry_seq(), item_names.entry_seq()),
    ensures
        key_view(keys@) == recipe_keys(recipes.entry_seq(), recipe_names.entry_seq(), item_names.entry_seq()),
{
    let entries = recipes.entries();
    let ghost book = recipes.entry_seq();
    let ghost rn = recipe_names.entry_seq();
    let ghost inames = item_names.entry_seq();
    let lows = lowered_names(entries, recipe_names);
    let mut keys: Vec<(String, usize)> = Vec::new();
    let mut i: usize = 0;
    while i < entries.len()
        invariant
            0 <= i <= entries.len(),
            entries@ == book,
            book == recipes.entry_seq(),
            rn == recipe_names.entry_seq(),
            inames == item_names.entry_seq(),
            recipes_named(book, rn, inames),
            lowered_ok(lows@, book, rn),
            key_view(keys@) == recipe_keys_upto(book, rn, inames, i as int),
        decreases entries.len() - i,
    {
        let rid = entries[i].0;
        let r = &entries[i].1;
        proof {
            assert(has_key(rn, book[i as int].0));
        }
        let ghost before = keys@;
        match &lows[i] {
            Some(l) => {
                proof {
                    lemma_later_same(lows@, book, rn, i as int);
                }
                if !later_same(&lows, i, l) {
                    keys.push((l.clone(), rid));
                    proof {
                        assert(key_view(keys@) =~= key_view(before).push((lowercase(name_of(rn, rid)), rid)));
                    }
                }
            },
            None => {},
        }
        proof {
            assert forall|j: int| 0 <= j < r.inputs.entry_seq().len() implies has_key(
                inames,
                (#[trigger] r.inputs.entry_seq()[j]).0,
            ) by {
                assert(book[i as int].1.inputs.entry_seq()[j] == r.inputs.entry_seq()[j]);
            }
            assert forall|j: int| 0 <= j < r.outputs.entry_seq().len() implies has_key(
                inames,
                (#[trigger] r.outputs.entry_seq()[j]).0,
            ) by {
                assert(book[i as int].1.outputs.entry_seq()[j] == r.outputs.entry_seq()[j]);
            }
        }
        push_io_keys(&mut keys, r.inputs.entries(), rid, item_names);
        push_io_keys(&mut keys, r.outputs.entries(), rid, item_names);
        i += 1;
    }
    keys
}

/// Some key of `kv` for identifier `k` holds `query`.
pub open spec fn found_in(kv: Seq<(Seq<char>, usize)>, query: Seq<char>, k: usize) -> bool {
    exists|j: int| 0 <= j < kv.len() && kv[j].1 == k && occurs_in(query, (#[trigger] kv[j]).0)
}

/// Recipe `i` of `book` is matched by `query`: its lower-case name holds the
/// query (unless a later recipe takes that form over, see `name_shadowed`),
/// or that of an item it takes or makes does.
pub open spec fn recipe_match_at(
    book: Seq<(usize, Recipe)>,
    recipe_names: Seq<(usize, String)>,
    item_names: Seq<(usize, String)>,
    query: Seq<char>,
    i: int,
) -> bool {
    ||| !name_shadowed(book, recipe_names, i) && occurs_in(query, lowercase(name_of(recipe_names, book[i].0)))
    ||| exists|j: int|
        0 <= j < book[i].1.inputs.entry_seq().len() && occurs_in(
            query,
            lowercase(name_of(item_names, (#[trigger] book[i].1.inputs.entry_seq()[j]).0)),
        )
    ||| exists|j: int|
        0 <= j < book[i].1.outputs.entry_seq().len() && occurs_in(
            query,
            lowercase(name_of(item_names, (#[trigger] book[i].1.outputs.entry_seq()[j]).0)),
        )
}

/// Some recipe of `book` below index `k` with identifier `rid` is matched by
/// `query`.
pub open spec fn recipe_matches_below(
    book: Seq<(usize, Recipe)>,
    recipe_names: Seq<(usize, String)>,
    item_names: Seq<(usize, String)>,
    query: Seq<char>,
    rid: usize,
    k: int,
) -> bool {
    exists|i: int|
        0 <= i < k && (#[trigger] book[i]).0 == rid && recipe_match_at(book, recipe_names, item_names, query, i)
}

/// Recipe `rid` of `book` is matched by `query` (see `recipe_match_at`).
pub open spec fn recipe_matches(
    book: Seq<(usize, Recipe)>,
    recipe_names: Seq<(usize, String)>,
    item_names: Seq<(usize, String)>,
    query: Seq<char>,
    rid: usize,
) -> bool {
    recipe_matches_below(book, recipe_names, item_names, query, rid, book.len() as int)
}

proof fn lemma_found_in_concat(a: Seq<(Seq<char>, usize)>, b: Seq<(Seq<char>, usize)>, q: Seq<char>, k: usize)
    ensures
        found_in(a + b, q, k) == (found_in(a, q, k) || found_in(b, q, k)),
{
    if found_in(a + b, q, k) {
        let j = choose|j: int| 0 <= j < (a + b).len() && (a + b)[j].1 == k && occurs_in(q, (#[trigger] (a + b)[j]).0);
        if j < a.len() {
            assert(a[j] == (a + b)[j]);
        } else {
            assert(b[j - a.len()] == (a + b)[j]);
        }
    }
    if found_in(a, q, k) {
        let j = choose|j: int| 0 <= j < a.len() && a[j].1 == k && occurs_in(q, (#[trigger] a[j]).0);
        assert((a + b)[j] == a[j]);
    }
    if found_in(b, q, k) {
        let j = choose|j: int| 0 <= j < b.len() && b[j].1 == k && occurs_in(q, (#[trigger] b[j]).0);
        assert((a + b)[a.len() + j] == b[j]);
    }
}

proof fn lemma_found_in_io(io: Seq<(usize, Fl)>, rid: usize, names: Seq<(usize, String)>, q: Seq<char>, k: usize)
    ensures
        found_in(io_keys(io, rid, names), q, k) == (k == rid && exists|j: int|
            0 <= j < io.len() && occurs_in(q, lowercase(name_of(names, (#[trigger] io[j]).0)))),
{
    let kv = io_keys(io, rid, names);
    if found_in(kv, q, k) {
        let j = choose|j: int| 0 <= j < kv.len() && kv[j].1 == k && occurs_in(q, (#[trigger] kv[j]).0);
        assert(occurs_in(q, lowercase(name_of(names, io[j].0))));
    }
    if k == rid && exists|j: int| 0 <= j < io.len() && occurs_in(q, lowercase(name_of(names, (#[trigger] io[j]).0))) {
        let j = choose|j: int| 0 <= j < io.len() && occurs_in(q, lowercase(name_of(names, (#[trigger] io[j]).0)));
        assert(kv[j] == (lowercase(name_of(names, io[j].0)), rid));
    }
}

proof fn lemma_recipe_keys_find_upto(
    book: Seq<(usize, Recipe)>,
    recipe_names: Seq<(usize, String)>,
    item_names: Seq<(usize, String)>,
    query: Seq<char>,
    rid: usize,
    k: int,
)
    requires
        0 <= k <= book.len(),
    ensures
        found_in(recipe_keys_upto(book, recipe_names, item_names, k), query, rid) == recipe_matches_below(
            book,
            recipe_names,
            item_names,
            query,
            rid,
            k,
        ),
    decreases k,
{
    if k > 0 {
        lemma_recipe_keys_find_upto(book, recipe_names, item_names, query, rid, k - 1);
        let a = recipe_keys_upto(book, recipe_names, item_names, k - 1);
        let (last_id, r) = book[k - 1];
        let x = (lowercase(name_of(recipe_names, last_id)), last_id);
        let shadowed = name_shadowed(book, recipe_names, k - 1);
        let named = if !shadowed {
            a.push(x)
        } else {
            a
        };
        let ins = io_keys(r.inputs.entry_seq(), last_id, item_names);
        let outs = io_keys(r.outputs.entry_seq(), last_id, item_names);
        lemma_found_in_concat(named + ins, outs, query, rid);
        lemma_found_in_concat(named, ins, query, rid);
        if !shadowed {
            lemma_found_in_concat(a, seq![x], query, rid);
            assert(a.push(x) == a + seq![x]);
            assert(found_in(seq![x], query, rid) == (last_id == rid && occurs_in(query, x.0))) by {
                if found_in(seq![x], query, rid) {
                    let j = choose|j: int| 0 <= j < 1 && seq![x][j].1 == rid && occurs_in(query, (#[trigger] seq![x][j]).0);
                }
                if last_id == rid && occurs_in(query, x.0) {
                    assert(seq![x][0] == x);
                }
            }
        }
        lemma_found_in_io(r.inputs.entry_seq(), last_id, item_names, query, rid);
        lemma_found_in_io(r.outputs.entry_seq(), last_id, item_names, query, rid);
        if recipe_matches_below(book, recipe_names, item_names, query, rid, k) {
            let i = choose|i: int|
                0 <= i < k && (#[trigger] book[i]).0 == rid && recipe_match_at(book, recipe_names, item_names, query, i);
            if i < k - 1 {
                assert(recipe_matches_below(book, recipe_names, item_names, query, rid, k - 1));
            }
        }
        if recipe_matches_below(book, recipe_names, item_names, query, rid, k - 1) {
            let i = choose|i: int|
                0 <= i < k - 1 && (#[trigger] book[i]).0 == rid && recipe_match_at(book, recipe_names, item_names, query, i);
            assert(0 <= i < k && book[i].0 == rid);
        }
        if last_id == rid && recipe_match_at(book, recipe_names, item_names, query, k - 1) {
            assert(book[k - 1].0 == rid);
        }
    }
}

/// A query finds exactly the recipes it matches: some key of `recipe_keys`
/// for a recipe holds the query exactly when the recipe is matched (see
/// `recipe_match_at`).
pub proof fn lemma_recipe_keys_find(
    book: Seq<(usize, Recipe)>,
    recipe_names: Seq<(usize, String)>,
    item_names: Seq<(usize, String)>,
    query: Seq<char>,
    rid: usize,
)
    ensures
        found_in(recipe_keys(book, recipe_names, item_names), query, rid) == recipe_matches(
            book,
            recipe_names,
            item_names,
            query,
            rid,
        ),
{
    lemma_recipe_keys_find_upto(book, recipe_names, item_names, query, rid, book.len() as int);
}

/// What a search for `query` over keys `keys` finds, as plain text.
pub proof fn lemma_found_key_view(keys: Seq<(String, usize)>, query: Seq<char>, k: usize)
    ensures
        found(keys, query, k) == found_in(key_view(keys), query, k),
{
    if found(keys, query, k) {
        let j = choose|j: int| 0 <= j < keys.len() && keys[j].1 == k && occurs_in(query, (#[trigger] keys[j]).0@);
        assert(key_view(keys)[j] == (keys[j].0@, keys[j].1));
    }
    if found_in(key_view(keys), query, k) {
        let j = choose|j: int|
            0 <= j < key_view(keys).len() && key_view(keys)[j].1 == k && occurs_in(query, (#[trigger] key_view(keys)[j]).0);
        assert(key_view(keys)[j] == (keys[j].0@, keys[j].1));
    }
}

/// Item `i` of `listed` is matched by `query`: it has a name whose lower-case
/// form holds the query, and no later item takes that form over (see
/// `name_shadowed`).
pub open spec fn item_match_at<T>(listed: Seq<(usize, T)>, names: Seq<(usize, String)>, query: Seq<char>, i: int) -> bool {
    has_key(names, listed[i].0) && !name_shadowed(listed, names, i) && occurs_in(
        query,
        lowercase(name_of(names, listed[i].0)),
    )
}

/// Some item of `listed` below index `b` with identifier `k` is matched.
pub open spec fn item_matches_below<T>(
    listed: Seq<(usize, T)>,
    names: Seq<(usize, String)>,
    query: Seq<char>,
    k: usize,
    b: int,
) -> bool {
    exists|i: int| 0 <= i < b && (#[trigger] listed[i]).0 == k && item_match_at(listed, names, query, i)
}

/// Item `k` of `listed` is matched by `query` (see `item_match_at`).
pub open spec fn item_matches<T>(listed: Seq<(usize, T)>, names: Seq<(usize, String)>, query: Seq<char>, k: usize) -> bool {
    item_matches_below(listed, names, query, k, listed.len() as int)
}

proof fn lemma_item_keys_find_upto<T>(listed: Seq<(usize, T)>, names: Seq<(usize, String)>, query: Seq<char>, k: usize, b: int)
    requires
        0 <= b <= listed.len(),
    ensures
        found_in(item_keys_upto(listed, names, b), query, k) == item_matches_below(listed, names, query, k, b),
    decreases b,
{
    if b > 0 {
        lemma_item_keys_find_upto(listed, names, query, k, b - 1);
        let a = item_keys_upto(listed, names, b - 1);
        let e = listed[b - 1].0;
        if has_key(names, e) && !name_shadowed(listed, names, b - 1) {
            let x = (lowercase(name_of(names, e)), e);
            lemma_found_in_concat(a, seq![x], query, k);
            assert(a.push(x) == a + seq![x]);
            if found_in(seq![x], query, k) {
                let j = choose|j: int| 0 <= j < 1 && seq![x][j].1 == k && occurs_in(query, (#[trigger] seq![x][j]).0);
            }
            if e == k && occurs_in(query, x.0) {
                assert(seq![x][0] == x);
            }
        }
        if item_matches_below(listed, names, query, k, b) {
            let i = choose|i: int| 0 <= i < b && (#[trigger] listed[i]).0 == k && item_match_at(listed, names, query, i);
            if i < b - 1 {
                assert(item_matches_below(listed, names, query, k, b - 1));
            }
        }
        if item_matches_below(listed, names, query, k, b - 1) {
            let i = choose|i: int| 0 <= i < b - 1 && (#[trigger] listed[i]).0 == k && item_match_at(listed, names, query, i);
            assert(0 <= i < b && listed[i].0 == k);
        }
        if e == k && item_match_at(listed, names, query, b - 1) {
            assert(listed[b - 1].0 == k);
        }
    }
}

/// A query finds exactly the items it matches.
pub proof fn lemma_item_keys_find<T>(listed: Seq<(usize, T)>, names: Seq<(usize, String)>, query: Seq<char>, k: usize)
    ensures
        found_in(item_keys(listed, names), query, k) == item_matches(listed, names, query, k),
{
    lemma_item_keys_find_upto(listed, names, query, k, listed.len() as int);
}

/// The recipes of `shown` to display for the search `query`: all of them
/// when the query is empty, otherwise those that the lower-case query
/// matches (see `recipe_matches`) among the recipes of `recipes`.
pub fn search_recipes<T: Copy>(
    recipes: &IdMap<Recipe>,
    recipe_names: &IdMap<String>,
    item_names: &IdMap<String>,
    query: &str,
    shown: &IdMap<T>,
) -> (res: IdMap<T>)
    requires
        recipes_named(recipes.entry_seq(), recipe_names.entry_seq(), item_names.entry_seq()),
    ensures
        lowercase(query@).len() == 0 ==> res.entry_seq() == shown.entry_seq(),
        lowercase(query@).len() > 0 ==> forall|k: usize| #[trigger]
            lookup(res.entry_seq(), k) == (if has_key(shown.entry_seq(), k) && recipe_matches(
                recipes.entry_seq(),
                recipe_names.entry_seq(),
                item_names.entry_seq(),
                lowercase(query@),
                k,
            ) {
                lookup(shown.entry_seq(), k)
            } else {
                None
            }),
{
    let keys = recipe_search_keys(recipes, recipe_names, item_names);
    proof {
        assert forall|k: usize| #[trigger] found(keys@, lowercase(query@), k) == recipe_matches(
            recipes.entry_seq(),
            recipe_names.entry_seq(),
            item_names.entry_seq(),
            lowercase(query@),
            k,
        ) by {
            lemma_found_key_view(keys@, lowercase(query@), k);
            lemma_recipe_keys_find(
                recipes.entry_seq(),
                recipe_names.entry_seq(),
                item_names.entry_seq(),
                lowercase(query@),
                k,
            );
        }
    }
    search(keys.as_slice(), query, shown)
}

/// The items of `shown` to display for the search `query`: all of them when
/// the query is empty, otherwise those that the lower-case query matches
/// (see `item_match_at`: a name in `item_names` whose lower-case form holds
/// the query and that no later item of `shown` takes over).
pub fn search_items<T: Copy>(shown: &IdMap<T>, item_names: &IdMap<String>, query: &str) -> (res: IdMap<T>)
    ensures
        lowercase(query@).len() == 0 ==> res.entry_seq() == shown.entry_seq(),
        lowercase(query@).len() > 0 ==> forall|k: usize| #[trigger]
            lookup(res.entry_seq(), k) == (if has_key(shown.entry_seq(), k) && item_matches(
                shown.entry_seq(),
                item_names.entry_seq(),
                lowercase(query@),
                k,
            ) {
                lookup(shown.entry_seq(), k)
            } else {
                None
            }),
{
    let keys = item_search_keys(shown, item_names);
    proof {
        assert forall|k: usize| #[trigger] found(keys@, lowercase(query@), k) == item_matches(
            shown.entry_seq(),
            item_names.entry_seq(),
            lowercase(query@),
            k,
        ) by {
            lemma_found_key_view(keys@, lowercase(query@), k);
            lemma_item_keys_find(shown.entry_seq(), item_names.entry_seq(), lowercase(query@), k);
        }
    }
    search(keys.as_slice(), query, shown)
}

/// The check boxes of the input panel as it opens: one per item of `items`,
/// ticked when the item is among the `available` ones (which get a ticked
/// box even when `items` lacks them).
pub fn initial_ticks<T>(items: &IdMap<T>, available: &[ItemId]) -> (res: IdMap<bool>)
    ensures
        forall|k: usize| #[trigger]
            lookup(res.entry_seq(), k) == (if available@.contains(ItemId(k)) {
                Some(true)
            } else if has_key(items.entry_seq(), k) {
                Some(false)
            } else {
                None
            }),
{
    let entries = items.entries();
    let mut res: IdMap<bool> = IdMap::new();
    let mut i: usize = 0;
    while i < entries.len()
        invariant
            0 <= i <= entries.len(),
            entries@ == items.entry_seq(),
            keys_increasing(entries@),
            forall|k: usize| #[trigger]
                lookup(res.entry_seq(), k) == (if exists|j: int| 0 <= j < i && entries@[j].0 == k {
                    Some(false)
                } else {
                    None
                }),
        decreases entries.len() - i,
    {
        let ghost before = res.entry_seq();
        proof {
            use_type_invariant(&res);
            crate::id_map::lemma_upsert(before, entries@[i as int].0, false);
        }
        res.insert(entries[i].0, false);
        proof {
            assert forall|k: usize| #[trigger] lookup(res.entry_seq(), k) == (if exists|j: int|
                0 <= j < i + 1 && entries@[j].0 == k {
                Some(false)
            } else {
                None
            }) by {
                if k == entries@[i as int].0 {
                    assert(0 <= i < i + 1 && entries@[i as int].0 == k);
                } else {
                    if exists|j: int| 0 <= j < i + 1 && entries@[j].0 == k {
                        let j = choose|j: int| 0 <= j < i + 1 && entries@[j].0 == k;
                        assert(0 <= j < i && entries@[j].0 == k);
                    }
                    if exists|j: int| 0 <= j < i && entries@[j].0 == k {
                        let j = choose|j: int| 0 <= j < i && entries@[j].0 == k;
                        assert(0 <= j < i + 1 && entries@[j].0 == k);
                    }
                }
            }
        }
        i += 1;
    }
    proof {
        assert forall|k: usize| (exists|j: int| 0 <= j < entries@.len() && entries@[j].0 == k) == has_key(
            entries@,
            k,
        ) by {
            lemma_slot(entries@, k);
            if exists|j: int| 0 <= j < entries@.len() && entries@[j].0 == k {
                let j = choose|j: int| 0 <= j < entries@.len() && entries@[j].0 == k;
                crate::id_map::lemma_slot_of_index(entries@, k, j);
            }
        }
    }
    let mut a: usize = 0;
    while a < available.len()
        invariant
            0 <= a <= available.len(),
            entries@ == items.entry_seq(),
            forall|k: usize| #[trigger]
                lookup(res.entry_seq(), k) == (if available@.take(a as int).contains(ItemId(k)) {
                    Some(true)
                } else if has_key(items.entry_seq(), k) {
                    Some(false)
                } else {
                    None
                }),
        decreases available.len() - a,
    {
        let x = available[a];
        let ghost before = res.entry_seq();
        proof {
            use_type_invariant(&res);
            crate::id_map::lemma_upsert(before, x.0, true);
        }
        res.insert(x.0, true);
        proof {
            let t0 = available@.take(a as int);
            let t1 = available@.take(a + 1);
            assert(t1 == t0.push(x));
            assert forall|k: usize| #[trigger] lookup(res.entry_seq(), k) == (if t1.contains(ItemId(k)) {
                Some(true)
            } else if has_key(items.entry_seq(), k) {
                Some(false)
            } else {
                None
            }) by {
                if t1.contains(ItemId(k)) && ItemId(k) != x {
                    let j = choose|j: int| 0 <= j < t1.len() && t1[j] == ItemId(k);
                    assert(t0[j] == ItemId(k));
                }
                if t0.contains(ItemId(k)) {
                    let j = choose|j: int| 0 <= j < t0.len() && t0[j] == ItemId(k);
                    assert(t1[j] == ItemId(k));
                }
                if ItemId(k) == x {
                    assert(t1[a as int] == x);
                }
            }
        }
        a += 1;
    }
    proof {
        assert(available@.take(a as int) == available@);
    }
    res
}

} // verus!
