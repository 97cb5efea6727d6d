//! The file browser's listing of a folder: hidden entries left out, sizes
//! and extensions filled in, folders first and then by lowercase name, in a
//! stable order.

use vstd::prelude::*;
use crate::text::{chars_of, find_last, last_index, lowercase, string_of, to_lowercase};

verus! {

broadcast use vstd::string::group_string_axioms;

/// One entry of a folder as read from disk.
#[derive(Debug)]
pub struct DirItem {
    /// The file name.
    pub name: String,
    /// The full path.
    pub path: String,
    /// It is a folder.
    pub is_dir: bool,
    /// It is a regular file.
    pub is_file: bool,
    /// Its length in bytes.
    pub len: u64,
}

/// One entry of the listing shown to the user.
#[derive(Debug)]
pub struct BrowserEntry {
    /// The file name.
    pub name: String,
    /// The full path.
    pub path: String,
    /// It is a folder.
    pub is_dir: bool,
    /// The length of a regular file, 0 for anything else.
    pub size: u64,
    /// The lowercase text after the name's last `.` (the whole name when it
    /// has none).
    pub ext: String,
}

/// An entry is shown unless its name starts with `.`.
pub open spec fn shown(it: DirItem) -> bool {
    !(it.name@.len() > 0 && it.name@[0] == '.')
}

/// The shown entries of `items`, in order.
pub open spec fn shown_items(items: Seq<DirItem>) -> Seq<DirItem>
    decreases items.len(),
{
    if items.len() == 0 {
        seq![]
    } else {
        let rest = shown_items(items.drop_last());
        if shown(items.last()) {
            rest.push(items.last())
        } else {
            rest
        }
    }
}

/// The text of `name` after its last `.`, or all of it when it has none.
pub open spec fn after_last_dot(name: Seq<char>) -> Seq<char> {
    name.skip(last_index(name, '.') + 1)
}

/// `e` is the listing entry of the item `it`.
pub open spec fn entry_for(e: BrowserEntry, it: DirItem) -> bool {
    &&& e.name@ == it.name@
    &&& e.path@ == it.path@
    &&& e.is_dir == it.is_dir
    &&& e.size == (if it.is_file { it.len } else { 0u64 })
    &&& e.ext@ == lowercase(after_last_dot(it.name@))
}

/// `a` is not after `b` in code-point order (lexicographic, a prefix first).
pub open spec fn lex_le(a: Seq<char>, b: Seq<char>) -> bool
    decreases a.len(),
{
    if a.len() == 0 {
        true
    } else if b.len() == 0 {
        false
    } else if a[0] != b[0] {
        (a[0] as int) < (b[0] as int)
    } else {
        lex_le(a.drop_first(), b.drop_first())
    }
}

/// The order of the listing on sort keys: folders before files, then the
/// lowercase names in code-point order.
pub open spec fn key_le(ad: bool, ak: Seq<char>, bd: bool, bk: Seq<char>) -> bool {
    (ad && !bd) || (ad == bd && lex_le(ak, bk))
}

/// `a` may stand before `b` in the listing.
pub open spec fn goes_before(a: BrowserEntry, b: BrowserEntry) -> bool {
    key_le(a.is_dir, lowercase(a.name@), b.is_dir, lowercase(b.name@))
}

/// `a` and `b` have the same sort key.
pub open spec fn same_key(a: BrowserEntry, b: BrowserEntry) -> bool {
    a.is_dir == b.is_dir && lowercase(a.name@) == lowercase(b.name@)
}

/// `r` lists the items `kept`, its `i`-th entry being that of `kept[idx[i]]`:
/// every item once, sorted, and entries with the same key in the order of
/// their items.
pub open spec fn is_listing(r: Seq<BrowserEntry>, kept: Seq<DirItem>, idx: Seq<int>) -> bool {
    &&& r.len() == kept.len()
    &&& idx.len() == kept.len()
    &&& forall|i: int| 0 <= i < idx.len() ==> 0 <= #[trigger] idx[i] < kept.len()
    &&& forall|i: int, j: int| 0 <= i < j < idx.len() ==> idx[i] != idx[j]
    &&& forall|i: int| 0 <= i < r.len() ==> entry_for(#[trigger] r[i], kept[idx[i]])
    &&& forall|i: int, j: int| 0 <= i < j < r.len() ==> goes_before(r[i], r[j])
    &&& forall|i: int, j: int| 0 <= i < j < r.len() && same_key(r[i], r[j]) ==> idx[i] < idx[j]
}

proof fn lemma_lex_refl(a: Seq<char>)
    ensures
        lex_le(a, a),
    decreases a.len(),
{
    if a.len() > 0 {
        lemma_lex_refl(a.drop_first());
    }
}

proof fn lemma_lex_total(a: Seq<char>, b: Seq<char>)
    ensures
        lex_le(a, b) || lex_le(b, a),
    decreases a.len(),
{
    if a.len() > 0 && b.len() > 0 {
        if a[0] == b[0] {
            lemma_lex_total(a.drop_first(), b.drop_first());
        } else {
            assert((a[0] as int) != (b[0] as int));
        }
    }
}

proof fn lemma_lex_trans(a: Seq<char>, b: Seq<char>, c: Seq<char>)
    requires
        lex_le(a, b),
        lex_le(b, c),
    ensures
        lex_le(a, c),
    decreases a.len(),
{
    if a.len() > 0 && b.len() > 0 && c.len() > 0 && a[0] == b[0] && b[0] == c[0] {
        lemma_lex_trans(a.drop_first(), b.drop_first(), c.drop_first());
    }
}

/// The listing order is total and transitive, and an entry may stand before
/// any entry with the same key.
proof fn lemma_order(a: BrowserEntry, b: BrowserEntry, c: BrowserEntry)
    ensures
        goes_before(a, b) || goes_before(b, a),
        goes_before(a, b) && goes_before(b, c) ==> goes_before(a, c),
        same_key(a, b) ==> goes_before(a, b),
{
    let (ka, kb, kc) = (lowercase(a.name@), lowercase(b.name@), lowercase(c.name@));
    lemma_lex_total(ka, kb);
    lemma_lex_refl(ka);
    if lex_le(ka, kb) && lex_le(kb, kc) {
        lemma_lex_trans(ka, kb, kc);
    }
}

/// Whether `a` is not after `b` in code-point order.
fn lex_le_chars(a: &Vec<char>, b: &Vec<char>) -> (r: bool)
    ensures
        r == lex_le(a@, b@),
{
    let mut i: usize = 0;
    assert(a@.skip(0) =~= a@);
    assert(b@.skip(0) =~= b@);
    while i < a.len() && i < b.len() && a[i] == b[i]
        invariant
            i <= a.len(),
            i <= b.len(),
            lex_le(a@, b@) == lex_le(a@.skip(i as int), b@.skip(i as int)),
        decreases a.len() - i,
    {
        assert(a@.skip(i as int).drop_first() =~= a@.skip(i + 1));
        assert(b@.skip(i as int).drop_first() =~= b@.skip(i + 1));
        i = i + 1;
    }
    if i == a.len() {
        true
    } else if i == b.len() {
        false
    } else {
        a[i] < b[i]
    }
}

/// Whether an entry with the key (`ad`, `ak`) may stand before one with the
/// key (`bd`, `bk`).
fn key_le_exec(ad: bool, ak: &Vec<char>, bd: bool, bk: &Vec<char>) -> (r: bool)
    ensures
        r == key_le(ad, ak@, bd, bk@),
{
    (ad && !bd) || (ad == bd && lex_le_chars(ak, bk))
}

/// The listing entry of `it`.
fn entry_of(it: &DirItem) -> (e: BrowserEntry)
    ensures
        entry_for(e, *it),
{
    let nv = chars_of(it.name.as_str());
    let start = match find_last(&nv, '.') {
        Some(k) => k + 1,
        None => 0,
    };
    let ext = to_lowercase(&nv, start, nv.len());
    assert(nv@.subrange(start as int, nv.len() as int) =~= after_last_dot(it.name@));
    BrowserEntry {
        name: it.name.clone(),
        path: it.path.clone(),
        is_dir: it.is_dir,
        size: if it.is_file {
            it.len
        } else {
            0
        },
        ext: string_of(&ext),
    }
}

/// The listing of a folder's entries `items` as the file browser shows it:
/// entries whose names start with `.` are left out; each has its size (the
/// length of a regular file, else 0) and its lowercase extension; folders
/// come first, then the entries by lowercase name in code-point order, and
/// entries with the same key keep their order in `items`.
pub fn browser_entries(items: Vec<DirItem>) -> (r: Vec<BrowserEntry>)
    ensures
        exists|idx: Seq<int>| is_listing(r@, shown_items(items@), idx),
{
    let mut out: Vec<BrowserEntry> = Vec::new();
    let mut keys: Vec<Vec<char>> = Vec::new();
    let ghost mut idx: Seq<int> = seq![];
    let mut i: usize = 0;
    assert(items@.take(0) =~= Seq::<DirItem>::empty());
    while i < items.len()
        invariant
            i <= items.len(),
            keys.len() == out.len(),
            forall|q: int| 0 <= q < keys.len() ==> (#[trigger] keys@[q])@ == lowercase(out@[q].name@),
            is_listing(out@, shown_items(items@.take(i as int)), idx),
        decreases items.len() - i,
    {
        let ghost kept = shown_items(items@.take(i as int));
        assert(items@.take(i + 1).drop_last() =~= items@.take(i as int));
        assert(items@.take(i + 1).last() == items@[i as int]);
        let it = &items[i];
        let name_chars = chars_of(it.name.as_str());
        let hidden = name_chars.len() > 0 && name_chars[0] == '.';
        if !hidden {
            let e = entry_of(it);
            let nv = chars_of(e.name.as_str());
            let ek = to_lowercase(&nv, 0, nv.len());
            assert(nv@.subrange(0, nv.len() as int) =~= e.name@);
            let mut p: usize = 0;
            loop
                invariant_except_break
                    p <= out.len(),
                    ek@ == lowercase(e.name@),
                    keys.len() == out.len(),
                    forall|q: int| 0 <= q < keys.len() ==> (#[trigger] keys@[q])@ == lowercase(out@[q].name@),
                    forall|q: int| 0 <= q < p ==> !(goes_before(e, #[trigger] out@[q]) && !goes_before(out@[q], e)),
                ensures
                    p <= out.len(),
                    forall|q: int| 0 <= q < p ==> !(goes_before(e, #[trigger] out@[q]) && !goes_before(out@[q], e)),
                    p < out.len() ==> goes_before(e, out@[p as int]) && !goes_before(out@[p as int], e),
                decreases out.len() - p,
            {
                if p >= out.len() {
                    break;
                }
                let before_it = key_le_exec(e.is_dir, &ek, out[p].is_dir, &keys[p]);
                let after_it = key_le_exec(out[p].is_dir, &keys[p], e.is_dir, &ek);
                if before_it && !after_it {
                    break;
                }
                p = p + 1;
            }
            let ghost old_out = out@;
            let ghost old_keys = keys@;
            let ghost old_idx = idx;
            let ghost k = kept.len() as int;
            let ghost new_kept = kept.push(*it);
            out.insert(p, e);
            keys.insert(p, ek);
            proof {
                idx = old_idx.insert(p as int, k);
                assert(shown(*it));
                assert(new_kept == shown_items(items@.take(i + 1)));
                lemma_insert_keeps_listing(old_out, kept, old_idx, out@[p as int], *it, p as int);
                assert(out@ =~= old_out.insert(p as int, out@[p as int]));
                assert forall|q: int| 0 <= q < keys.len() implies (#[trigger] keys@[q])@ == lowercase(out@[q].name@) by {
                    if q < p {
                        assert(keys@[q] == old_keys[q] && out@[q] == old_out[q]);
                    } else if q > p {
                        assert(keys@[q] == old_keys[q - 1] && out@[q] == old_out[q - 1]);
                    }
                }
            }
        } else {
            proof {
                assert(!shown(*it));
                assert(kept == shown_items(items@.take(i + 1)));
            }
        }
        i = i + 1;
    }
    assert(items@.take(i as int) =~= items@);
    out
}

/// Inserting the entry `e` of the item `it`, at the place `p` after every
/// entry that may stand before it, keeps a listing a listing.
proof fn lemma_insert_keeps_listing(
    out: Seq<BrowserEntry>,
    kept: Seq<DirItem>,
    idx: Seq<int>,
    e: BrowserEntry,
    it: DirItem,
    p: int,
)
    requires
        is_listing(out, kept, idx),
        entry_for(e, it),
        0 <= p <= out.len(),
        forall|q: int| 0 <= q < p ==> !(goes_before(e, #[trigger] out[q]) && !goes_before(out[q], e)),
        p < out.len() ==> goes_before(e, out[p]) && !goes_before(out[p], e),
    ensures
        is_listing(out.insert(p, e), kept.push(it), idx.insert(p, kept.len() as int)),
{
    let r = out.insert(p, e);
    let nk = kept.push(it);
    let ni = idx.insert(p, kept.len() as int);
    let k = kept.len() as int;
    assert forall|i: int| 0 <= i < ni.len() implies 0 <= #[trigger] ni[i] < nk.len() by {
        if i > p {
            assert(ni[i] == idx[i - 1]);
        } else if i < p {
            assert(ni[i] == idx[i]);
        }
    }
    assert forall|i: int, j: int| 0 <= i < j < ni.len() implies ni[i] != ni[j] by {
        if i < p && j > p {
            assert(ni[i] == idx[i] && ni[j] == idx[j - 1]);
        } else if i > p {
            assert(ni[i] == idx[i - 1] && ni[j] == idx[j - 1]);
        } else if j < p {
            assert(ni[i] == idx[i] && ni[j] == idx[j]);
        } else if i == p {
            assert(ni[j] == idx[j - 1]);
        } else {
            assert(ni[i] == idx[i]);
        }
    }
    assert forall|i: int| 0 <= i < r.len() implies entry_for(#[trigger] r[i], nk[ni[i]]) by {
        if i < p {
            assert(r[i] == out[i] && ni[i] == idx[i]);
            assert(nk[idx[i]] == kept[idx[i]]);
        } else if i > p {
            assert(r[i] == out[i - 1] && ni[i] == idx[i - 1]);
            assert(nk[idx[i - 1]] == kept[idx[i - 1]]);
        } else {
            assert(r[i] == e && ni[i] == k && nk[k] == it);
        }
    }
    assert forall|i: int, j: int| 0 <= i < j < r.len() implies goes_before(r[i], r[j]) by {
        if i < p && j < p {
            assert(r[i] == out[i] && r[j] == out[j]);
        } else if i > p {
            assert(r[i] == out[i - 1] && r[j] == out[j - 1]);
        } else if i < p && j > p {
            assert(r[i] == out[i] && r[j] == out[j - 1]);
        } else if j == p {
            assert(r[i] == out[i] && r[j] == e);
            lemma_order(out[i], e, e);
        } else {
            assert(r[i] == e && r[j] == out[j - 1]);
            lemma_order(e, out[p], out[j - 1]);
        }
    }
    assert forall|i: int, j: int| 0 <= i < j < r.len() && same_key(r[i], r[j]) implies ni[i] < ni[j] by {
        if i < p && j < p {
            assert(r[i] == out[i] && r[j] == out[j] && ni[i] == idx[i] && ni[j] == idx[j]);
        } else if i > p {
            assert(r[i] == out[i - 1] && r[j] == out[j - 1]);
            assert(ni[i] == idx[i - 1] && ni[j] == idx[j - 1]);
        } else if i < p && j > p {
            assert(r[i] == out[i] && r[j] == out[j - 1]);
            assert(ni[i] == idx[i] && ni[j] == idx[j - 1]);
        } else if j == p {
            assert(ni[i] == idx[i]);
        } else {
            assert(r[i] == e);
            assert(r[j] == out[j - 1]);
            lemma_order(out[j - 1], e, out[p]);
            lemma_order(out[p], out[j - 1], e);
        }
    }
}

} // verus!
