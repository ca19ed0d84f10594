use crate::path::texts_of;
use vstd::prelude::*;
use vstd::relations::{sorted_by, total_ordering};
use vstd::utf8::{encode_utf8, encode_utf8_decode_utf8};

verus! {

broadcast use vstd::seq_lib::group_to_multiset_ensures;

/// One child of a directory, as read from the filesystem: its name and
/// whether it is a directory.
pub struct EntryInfo {
    pub name: String,
    pub is_dir: bool,
}

impl View for EntryInfo {
    type V = (Seq<char>, bool);

    open spec fn view(&self) -> (Seq<char>, bool) {
        (self.name@, self.is_dir)
    }
}

/// The views of a sequence of entries.
pub open spec fn entries_view(s: Seq<EntryInfo>) -> Seq<(Seq<char>, bool)> {
    s.map_values(|e: EntryInfo| e@)
}

/// Lexicographic order on byte strings, a prefix coming first.
pub open spec fn bytes_le(a: Seq<u8>, b: Seq<u8>) -> bool
    decreases a.len(),
{
    if a.len() == 0 {
        true
    } else if b.len() == 0 {
        false
    } else if a[0] != b[0] {
        a[0] < b[0]
    } else {
        bytes_le(a.drop_first(), b.drop_first())
    }
}

/// Names are ordered as the platform orders them: by their UTF-8 bytes.
pub open spec fn name_le(a: Seq<char>, b: Seq<char>) -> bool {
    bytes_le(encode_utf8(a), encode_utf8(b))
}

/// Listing order: directories before files, then by name.
pub open spec fn entry_le(a: (Seq<char>, bool), b: (Seq<char>, bool)) -> bool {
    (a.1 && !b.1) || (a.1 == b.1 && name_le(a.0, b.0))
}

pub open spec fn entry_order() -> spec_fn((Seq<char>, bool), (Seq<char>, bool)) -> bool {
    |a: (Seq<char>, bool), b: (Seq<char>, bool)| entry_le(a, b)
}

/// A dot-prefixed name is hidden.
pub open spec fn is_hidden(name: Seq<char>) -> bool {
    name.len() > 0 && name[0] == '.'
}

pub open spec fn shown(show_hidden: bool) -> spec_fn((Seq<char>, bool)) -> bool {
    |e: (Seq<char>, bool)| show_hidden || !is_hidden(e.0)
}

/// How an entry is displayed: directories carry a trailing separator.
pub open spec fn display_name(e: (Seq<char>, bool)) -> Seq<char> {
    if e.1 {
        e.0.push('/')
    } else {
        e.0
    }
}

/// The listing of a directory with the given children: the shown entries,
/// sorted in listing order, by their displayed names.
pub open spec fn listing(entries: Seq<(Seq<char>, bool)>, show_hidden: bool) -> Seq<Seq<char>> {
    entries.filter(shown(show_hidden)).sort_by(entry_order()).map_values(
        |e: (Seq<char>, bool)| display_name(e),
    )
}

proof fn lemma_bytes_le_reflexive(a: Seq<u8>)
    ensures
        bytes_le(a, a),
    decreases a.len(),
{
    if a.len() > 0 {
        lemma_bytes_le_reflexive(a.drop_first());
    }
}

proof fn lemma_bytes_le_antisymmetric(a: Seq<u8>, b: Seq<u8>)
    requires
        bytes_le(a, b),
        bytes_le(b, a),
    ensures
        a == b,
    decreases a.len(),
{
    if a.len() > 0 && b.len() > 0 {
        lemma_bytes_le_antisymmetric(a.drop_first(), b.drop_first());
        assert(a =~= seq![a[0]] + a.drop_first());
        assert(b =~= seq![b[0]] + b.drop_first());
    } else {
        assert(a =~= b);
    }
}

proof fn lemma_bytes_le_transitive(a: Seq<u8>, b: Seq<u8>, c: Seq<u8>)
    requires
        bytes_le(a, b),
        bytes_le(b, c),
    ensures
        bytes_le(a, c),
    decreases a.len(),
{
    if a.len() > 0 && b.len() > 0 && c.len() > 0 {
        if a[0] == b[0] && b[0] == c[0] {
            lemma_bytes_le_transitive(a.drop_first(), b.drop_first(), c.drop_first());
        }
    }
}

proof fn lemma_bytes_le_connected(a: Seq<u8>, b: Seq<u8>)
    ensures
        bytes_le(a, b) || bytes_le(b, a),
    decreases a.len(),
{
    if a.len() > 0 && b.len() > 0 && a[0] == b[0] {
        lemma_bytes_le_connected(a.drop_first(), b.drop_first());
    }
}

/// Listing order is a total order.
proof fn lemma_entry_order_total()
    ensures
        total_ordering(entry_order()),
{
    assert forall|a: (Seq<char>, bool)| #[trigger] entry_le(a, a) by {
        lemma_bytes_le_reflexive(encode_utf8(a.0));
    }
    assert forall|a: (Seq<char>, bool), b: (Seq<char>, bool)|
        #[trigger] entry_le(a, b) && #[trigger] entry_le(b, a) implies a == b by {
        lemma_bytes_le_antisymmetric(encode_utf8(a.0), encode_utf8(b.0));
        encode_utf8_decode_utf8(a.0);
        encode_utf8_decode_utf8(b.0);
    }
    assert forall|a: (Seq<char>, bool), b: (Seq<char>, bool), c: (Seq<char>, bool)|
        #[trigger] entry_le(a, b) && #[trigger] entry_le(b, c) implies entry_le(a, c) by {
        if a.1 == b.1 && b.1 == c.1 {
            lemma_bytes_le_transitive(encode_utf8(a.0), encode_utf8(b.0), encode_utf8(c.0));
        }
    }
    assert forall|a: (Seq<char>, bool), b: (Seq<char>, bool)|
        #[trigger] entry_le(a, b) || #[trigger] entry_le(b, a) by {
        lemma_bytes_le_connected(encode_utf8(a.0), encode_utf8(b.0));
    }
}

/// Two sequences sorted by one total order that hold the same elements are
/// the same sequence.
proof fn lemma_sorted_unique<A>(a: Seq<A>, b: Seq<A>, leq: spec_fn(A, A) -> bool)
    requires
        total_ordering(leq),
        sorted_by(a, leq),
        sorted_by(b, leq),
        a.to_multiset() == b.to_multiset(),
    ensures
        a == b,
    decreases a.len(),
{
    a.to_multiset_ensures();
    b.to_multiset_ensures();
    if a.len() == 0 {
        assert(a =~= b);
    } else {
        assert(b.len() > 0);
        assert(a.to_multiset().count(a[0]) > 0) by {
            assert(a.contains(a[0]));
        }
        assert(b.contains(a[0]));
        let j = choose|j: int| 0 <= j < b.len() && b[j] == a[0];
        assert(leq(b[0], a[0])) by {
            if j > 0 {
                assert(leq(b[0], b[j]));
            }
        }
        assert(a.contains(b[0])) by {
            assert(b.contains(b[0]));
            assert(b.to_multiset().count(b[0]) > 0);
        }
        let k = choose|k: int| 0 <= k < a.len() && a[k] == b[0];
        assert(leq(a[0], b[0])) by {
            if k > 0 {
                assert(leq(a[0], a[k]));
            }
        }
        assert(a[0] == b[0]);
        assert(a.remove(0) =~= a.drop_first());
        assert(b.remove(0) =~= b.drop_first());
        assert(sorted_by(a.drop_first(), leq)) by {
            assert forall|i: int, l: int| 0 <= i < l < a.drop_first().len() implies #[trigger] leq(
                a.drop_first()[i],
                a.drop_first()[l],
            ) by {
                assert(leq(a[i + 1], a[l + 1]));
            }
        }
        assert(sorted_by(b.drop_first(), leq)) by {
            assert forall|i: int, l: int| 0 <= i < l < b.drop_first().len() implies #[trigger] leq(
                b.drop_first()[i],
                b.drop_first()[l],
            ) by {
                assert(leq(b[i + 1], b[l + 1]));
            }
        }
        lemma_sorted_unique(a.drop_first(), b.drop_first(), leq);
        assert forall|i: int| 0 < i < a.len() implies a[i] == b[i] by {
            assert(a[i] == a.drop_first()[i - 1]);
            assert(b[i] == b.drop_first()[i - 1]);
        }
        assert(a =~= b);
    }
}

/// Compares two byte strings in lexicographic order.
fn bytes_le_exec(a: &[u8], b: &[u8]) -> (r: bool)
    ensures
        r == bytes_le(a@, b@),
{
    let mut i: usize = 0;
    assert(a@.skip(0) =~= a@);
    assert(b@.skip(0) =~= b@);
    while i < a.len() && i < b.len()
        invariant
            i <= a.len(),
            i <= b.len(),
            bytes_le(a@, b@) == bytes_le(a@.skip(i as int), b@.skip(i as int)),
        decreases a.len() - i,
    {
        if a[i] != b[i] {
            return a[i] < b[i];
        }
        assert(a@.skip(i as int).drop_first() =~= a@.skip(i + 1));
        assert(b@.skip(i as int).drop_first() =~= b@.skip(i + 1));
        i = i + 1;
    }
    i == a.len()
}

/// Compares two entries in listing order.
fn entry_le_exec(a: &EntryInfo, b: &EntryInfo) -> (r: bool)
    ensures
        r == entry_le(a@, b@),
{
    if a.is_dir != b.is_dir {
        a.is_dir
    } else {
        bytes_le_exec(a.name.as_str().as_bytes(), b.name.as_str().as_bytes())
    }
}

/// Whether an entry is listed with the given hidden-file flag.
fn is_shown(e: &EntryInfo, show_hidden: bool) -> (r: bool)
    ensures
        r == shown(show_hidden)(e@),
{
    if show_hidden {
        true
    } else {
        let s = e.name.as_str();
        !(s.unicode_len() > 0 && s.get_char(0) == '.')
    }
}

/// A copy of an entry.
fn copy_entry(e: &EntryInfo) -> (r: EntryInfo)
    ensures
        r@ == e@,
{
    EntryInfo { name: e.name.clone(), is_dir: e.is_dir }
}

/// The displayed name of an entry.
fn display_of(e: &EntryInfo) -> (r: String)
    ensures
        r@ == display_name(e@),
{
    let mut s = e.name.clone();
    if e.is_dir {
        s.append("/");
        proof {
            reveal_strlit("/");
        }
    }
    s
}

/// The shown entries, sorted in listing order.
fn sorted_shown(entries: &Vec<EntryInfo>, show_hidden: bool) -> (r: Vec<EntryInfo>)
    ensures
        entries_view(r@) == entries_view(entries@).filter(shown(show_hidden)).sort_by(
            entry_order(),
        ),
{
    let ghost leq = entry_order();
    let ghost pred = shown(show_hidden);
    proof {
        lemma_entry_order_total();
    }
    let mut out: Vec<EntryInfo> = Vec::new();
    let mut i: usize = 0;
    while i < entries.len()
        invariant
            i <= entries.len(),
            total_ordering(leq),
            leq == entry_order(),
            pred == shown(show_hidden),
            sorted_by(entries_view(out@), leq),
            entries_view(out@).to_multiset() == entries_view(entries@).take(i as int).filter(
                pred,
            ).to_multiset(),
        decreases entries.len() - i,
    {
        let ghost before = entries_view(out@);
        let ghost seen = entries_view(entries@).take(i as int);
        let e = &entries[i];
        proof {
            assert(entries_view(entries@).take(i + 1) =~= seen.push(e@));
            seen.lemma_filter_push(e@, pred);
        }
        if is_shown(e, show_hidden) {
            let mut p: usize = 0;
            while p < out.len() && entry_le_exec(&out[p], e)
                invariant
                    p <= out.len(),
                    entries_view(out@) == before,
                    forall|k: int| 0 <= k < p ==> #[trigger] entry_le(before[k], e@),
                decreases out.len() - p,
            {
                assert(before[p as int] == out@[p as int]@);
                p = p + 1;
            }
            proof {
                if p < out.len() {
                    assert(before[p as int] == out@[p as int]@);
                    assert(!entry_le(before[p as int], e@));
                    assert(entry_le(e@, before[p as int])) by {
                        assert(leq(e@, before[p as int]) || leq(before[p as int], e@));
                    }
                }
            }
            out.insert(p, copy_entry(e));
            proof {
                let after = entries_view(out@);
                assert(after =~= before.insert(p as int, e@));
                assert(sorted_by(after, leq)) by {
                    assert forall|x: int, y: int| 0 <= x < y < after.len() implies #[trigger] leq(
                        after[x],
                        after[y],
                    ) by {
                        if y < p {
                            assert(leq(before[x], before[y]));
                        } else if y == p {
                            assert(entry_le(before[x], e@));
                        } else if x < p {
                            assert(leq(before[x], e@));
                            assert(leq(e@, before[p as int]));
                            if p < y - 1 {
                                assert(leq(before[p as int], before[y - 1]));
                            }
                            assert(leq(e@, before[y - 1]));
                        } else if x == p {
                            assert(leq(e@, before[p as int]));
                            if p < y - 1 {
                                assert(leq(before[p as int], before[y - 1]));
                            }
                        } else {
                            assert(leq(before[x - 1], before[y - 1]));
                        }
                    }
                }
            }
        }
        i = i + 1;
    }
    proof {
        assert(entries_view(entries@).take(entries.len() as int) =~= entries_view(entries@));
        let target = entries_view(entries@).filter(pred);
        target.lemma_sort_by_ensures(leq);
        lemma_sorted_unique(entries_view(out@), target.sort_by(leq), leq);
    }
    out
}

/// Listing Engine: the displayed listing of a directory whose children are
/// `entries`. Dot-prefixed names are left out unless `show_hidden`;
/// directories come first, each group in byte order of the names, and
/// directory names end with `/`.
pub fn nav_buffer_lines(entries: &Vec<EntryInfo>, show_hidden: bool) -> (r: Vec<String>)
    ensures
        texts_of(r@) == listing(entries_view(entries@), show_hidden),
{
    let sorted = sorted_shown(entries, show_hidden);
    let mut lines: Vec<String> = Vec::new();
    let mut i: usize = 0;
    while i < sorted.len()
        invariant
            i <= sorted.len(),
            texts_of(lines@) == entries_view(sorted@).take(i as int).map_values(
                |e: (Seq<char>, bool)| display_name(e),
            ),
        decreases sorted.len() - i,
    {
        append_item(&sorted[i], &mut lines);
        assert(entries_view(sorted@).take(i + 1) =~= entries_view(sorted@).take(i as int).push(
            sorted@[i as int]@,
        ));
        assert(texts_of(lines@) =~= entries_view(sorted@).take(i + 1).map_values(
            |e: (Seq<char>, bool)| display_name(e),
        ));
        i = i + 1;
    }
    assert(entries_view(sorted@).take(sorted.len() as int) =~= entries_view(sorted@));
    lines
}

/// Appends the displayed name of `entry` to `lines`.
pub fn append_item(entry: &EntryInfo, lines: &mut Vec<String>)
    ensures
        texts_of(final(lines)@) == texts_of(old(lines)@).push(display_name(entry@)),
{
    lines.push(display_of(entry));
    assert(texts_of(lines@) =~= texts_of(old(lines)@).push(display_name(entry@)));
}

} // verus!
